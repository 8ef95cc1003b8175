//! Rebasing back undoes rebasing forward, for fields that do not overlap.

use crate::bytes::{overwrite, u32_at};
use crate::rebase::{
    absolute_of, lemma_rebased_field_back, lemma_rebased_len, patches_in_image, rebased,
    rebased_field, FieldPatch,
};
use vstd::prelude::*;

verus! {

/// Whether two fields share no byte.
pub open spec fn apart(a: FieldPatch, b: FieldPatch) -> bool {
    a.fo + 4 <= b.fo || b.fo + 4 <= a.fo
}

/// Whether no two fields of `patches` share a byte.
pub open spec fn pairwise_apart(patches: Seq<FieldPatch>) -> bool {
    forall|i: int, j: int|
        0 <= i < j < patches.len() ==> apart(#[trigger] patches[i], #[trigger] patches[j])
}

/// Whether the guard holds back none of `patches` on the image `img`: with
/// `guarded` set, every field's address fits 32 bits.
pub open spec fn none_held_back(
    img: Seq<u8>,
    patches: Seq<FieldPatch>,
    base: u64,
    guarded: bool,
) -> bool {
    guarded ==> forall|i: int|
        0 <= i < patches.len() ==> absolute_of(
            (#[trigger] patches[i]).va,
            u32_at(img, patches[i].fo as int),
            base,
        ) <= 0xFFFF_FFFF
}

/// Rebasing a field changes no byte outside it and depends on no byte
/// outside it.
proof fn lemma_field_local(
    img: Seq<u8>,
    other: Seq<u8>,
    p: FieldPatch,
    base: u64,
    forward: bool,
    use_be: bool,
    guarded: bool,
)
    requires
        p.fo + 4 <= img.len(),
        img.len() == other.len(),
        img.subrange(p.fo as int, p.fo + 4) == other.subrange(p.fo as int, p.fo + 4),
    ensures
        rebased_field(img, p, base, forward, use_be, guarded).len() == img.len(),
        forall|k: int|
            0 <= k < img.len() && !(p.fo <= k < p.fo + 4) ==> rebased_field(
                img,
                p,
                base,
                forward,
                use_be,
                guarded,
            )[k] == img[k],
        rebased_field(img, p, base, forward, use_be, guarded).subrange(p.fo as int, p.fo + 4)
            == rebased_field(other, p, base, forward, use_be, guarded).subrange(
            p.fo as int,
            p.fo + 4,
        ),
{
    let fo = p.fo as int;
    let a = rebased_field(img, p, base, forward, use_be, guarded);
    let b = rebased_field(other, p, base, forward, use_be, guarded);
    assert forall|v: u32| #[trigger] crate::bytes::u32_le_bytes(v).len() == 4 by {
        crate::bytes::lemma_le_u32_of_bytes(v);
    }
    assert forall|v: u32| #[trigger] crate::bytes::u32_be_bytes(v).len() == 4 by {
        crate::bytes::lemma_be_u32_of_bytes(v);
    }
    assert forall|x: Seq<u8>, w: Seq<u8>|
        w.len() == 4 && fo + 4 <= x.len() implies (#[trigger] overwrite(x, fo, w)).subrange(
        fo,
        fo + 4,
    ) == w by {
        crate::bytes::lemma_overwrite_read(x, fo, w);
    }
}

/// Rebasing two fields that share no byte gives the same image in either
/// order.
proof fn lemma_fields_commute(
    img: Seq<u8>,
    p: FieldPatch,
    dp: bool,
    q: FieldPatch,
    dq: bool,
    base: u64,
    use_be: bool,
    guarded: bool,
)
    requires
        p.fo + 4 <= img.len(),
        q.fo + 4 <= img.len(),
        apart(p, q),
    ensures
        rebased_field(
            rebased_field(img, p, base, dp, use_be, guarded),
            q,
            base,
            dq,
            use_be,
            guarded,
        ) == rebased_field(
            rebased_field(img, q, base, dq, use_be, guarded),
            p,
            base,
            dp,
            use_be,
            guarded,
        ),
{
    let ip = rebased_field(img, p, base, dp, use_be, guarded);
    let iq = rebased_field(img, q, base, dq, use_be, guarded);
    lemma_field_local(img, img, p, base, dp, use_be, guarded);
    lemma_field_local(img, img, q, base, dq, use_be, guarded);
    assert(ip.subrange(q.fo as int, q.fo + 4) =~= img.subrange(q.fo as int, q.fo + 4));
    assert(iq.subrange(p.fo as int, p.fo + 4) =~= img.subrange(p.fo as int, p.fo + 4));
    lemma_field_local(ip, img, q, base, dq, use_be, guarded);
    lemma_field_local(iq, img, p, base, dp, use_be, guarded);
    let l = rebased_field(ip, q, base, dq, use_be, guarded);
    let r = rebased_field(iq, p, base, dp, use_be, guarded);
    assert forall|k: int| 0 <= k < img.len() implies l[k] == r[k] by {
        if q.fo <= k < q.fo + 4 {
            assert(l[k] == l.subrange(q.fo as int, q.fo + 4)[k - q.fo]);
            assert(iq[k] == iq.subrange(q.fo as int, q.fo + 4)[k - q.fo]);
            assert(r[k] == iq[k]);
        } else if p.fo <= k < p.fo + 4 {
            assert(r[k] == r.subrange(p.fo as int, p.fo + 4)[k - p.fo]);
            assert(ip[k] == ip.subrange(p.fo as int, p.fo + 4)[k - p.fo]);
            assert(l[k] == ip[k]);
        } else {
            assert(l[k] == ip[k]);
            assert(ip[k] == img[k]);
            assert(r[k] == iq[k]);
            assert(iq[k] == img[k]);
        }
    }
    assert(l =~= r);
}

/// Rebasing a field commutes with rebasing a list of fields that share no
/// byte with it.
proof fn lemma_list_commutes(
    img: Seq<u8>,
    patches: Seq<FieldPatch>,
    n: int,
    dl: bool,
    p: FieldPatch,
    dp: bool,
    base: u64,
    use_be: bool,
    guarded: bool,
)
    requires
        0 <= n <= patches.len(),
        patches_in_image(patches, img.len() as int),
        p.fo + 4 <= img.len(),
        forall|i: int| 0 <= i < n ==> apart(#[trigger] patches[i], p),
    ensures
        rebased(
            rebased_field(img, p, base, dp, use_be, guarded),
            patches,
            n,
            base,
            dl,
            use_be,
            guarded,
        ) == rebased_field(
            rebased(img, patches, n, base, dl, use_be, guarded),
            p,
            base,
            dp,
            use_be,
            guarded,
        ),
    decreases n,
{
    if n > 0 {
        lemma_list_commutes(img, patches, n - 1, dl, p, dp, base, use_be, guarded);
        let mid = rebased(img, patches, n - 1, base, dl, use_be, guarded);
        lemma_rebased_len(img, patches, n - 1, base, dl, use_be, guarded);
        lemma_fields_commute(mid, p, dp, patches[n - 1], dl, base, use_be, guarded);
    }
}

/// A field that a list of fields does not overlap reads after the list was
/// rebased as before.
proof fn lemma_list_leaves_field(
    img: Seq<u8>,
    patches: Seq<FieldPatch>,
    n: int,
    dl: bool,
    p: FieldPatch,
    base: u64,
    use_be: bool,
    guarded: bool,
)
    requires
        0 <= n <= patches.len(),
        patches_in_image(patches, img.len() as int),
        p.fo + 4 <= img.len(),
        forall|i: int| 0 <= i < n ==> apart(#[trigger] patches[i], p),
    ensures
        rebased(img, patches, n, base, dl, use_be, guarded).subrange(p.fo as int, p.fo + 4)
            == img.subrange(p.fo as int, p.fo + 4),
    decreases n,
{
    if n > 0 {
        lemma_list_leaves_field(img, patches, n - 1, dl, p, base, use_be, guarded);
        let mid = rebased(img, patches, n - 1, base, dl, use_be, guarded);
        lemma_rebased_len(img, patches, n - 1, base, dl, use_be, guarded);
        lemma_field_local(mid, mid, patches[n - 1], base, dl, use_be, guarded);
        let out = rebased(img, patches, n, base, dl, use_be, guarded);
        assert(out.subrange(p.fo as int, p.fo + 4) =~= mid.subrange(p.fo as int, p.fo + 4));
    }
}

/// For fields that lie in the image and do not overlap, of which the guard
/// holds back none: rebasing back the first `n` of them after rebasing them
/// forward restores the image.
pub proof fn lemma_rebased_back(
    img: Seq<u8>,
    patches: Seq<FieldPatch>,
    n: int,
    base: u64,
    use_be: bool,
    guarded: bool,
)
    requires
        0 <= n <= patches.len(),
        patches_in_image(patches, img.len() as int),
        pairwise_apart(patches),
        none_held_back(img, patches, base, guarded),
    ensures
        rebased(
            rebased(img, patches, n, base, true, use_be, guarded),
            patches,
            n,
            base,
            false,
            use_be,
            guarded,
        ) == img,
    decreases n,
{
    if n > 0 {
        let p = patches[n - 1];
        let f1 = rebased(img, patches, n - 1, base, true, use_be, guarded);
        lemma_rebased_len(img, patches, n - 1, base, true, use_be, guarded);
        // The list below n does not touch field n, so the step forward on it
        // can be moved to the front of the image.
        lemma_list_commutes(img, patches, n - 1, true, p, true, base, use_be, guarded);
        let g = rebased_field(img, p, base, true, use_be, guarded);
        assert(rebased(img, patches, n, base, true, use_be, guarded) == rebased(
            g,
            patches,
            n - 1,
            base,
            true,
            use_be,
            guarded,
        ));
        lemma_field_local(img, img, p, base, true, use_be, guarded);
        // On g the fields below n read as on img.
        assert(none_held_back(g, patches.take(n - 1), base, guarded)) by {
            if guarded {
                assert forall|i: int| 0 <= i < n - 1 implies absolute_of(
                    (#[trigger] patches.take(n - 1)[i]).va,
                    u32_at(g, patches.take(n - 1)[i].fo as int),
                    base,
                ) <= 0xFFFF_FFFF by {
                    let q = patches[i];
                    assert(apart(q, p));
                    assert(g.subrange(q.fo as int, q.fo + 4) =~= img.subrange(
                        q.fo as int,
                        q.fo + 4,
                    ));
                }
            }
        }
        lemma_take_same(g, patches, n - 1, base, true, use_be, guarded);
        let f = rebased(g, patches, n - 1, base, true, use_be, guarded);
        lemma_rebased_len(g, patches, n - 1, base, true, use_be, guarded);
        lemma_take_same(f, patches, n - 1, base, false, use_be, guarded);
        assert(patches_in_image(patches.take(n - 1), g.len() as int));
        assert(pairwise_apart(patches.take(n - 1)));
        lemma_rebased_back(g, patches.take(n - 1), n - 1, base, use_be, guarded);
        assert(rebased(f, patches, n - 1, base, false, use_be, guarded) == g);
        lemma_rebased_field_back(img, p, base, use_be, guarded);
    }
}

/// Only the first `n` fields of a list matter to rebasing the first `n`.
proof fn lemma_take_same(
    img: Seq<u8>,
    patches: Seq<FieldPatch>,
    n: int,
    base: u64,
    forward: bool,
    use_be: bool,
    guarded: bool,
)
    requires
        0 <= n <= patches.len(),
    ensures
        rebased(img, patches.take(n), n, base, forward, use_be, guarded) == rebased(
            img,
            patches,
            n,
            base,
            forward,
            use_be,
            guarded,
        ),
{
    lemma_prefix_same(img, patches, patches.take(n), n, base, forward, use_be, guarded);
}

/// Two lists that agree on their first `n` fields rebase alike up to `n`.
proof fn lemma_prefix_same(
    img: Seq<u8>,
    a: Seq<FieldPatch>,
    b: Seq<FieldPatch>,
    n: int,
    base: u64,
    forward: bool,
    use_be: bool,
    guarded: bool,
)
    requires
        0 <= n <= a.len(),
        n <= b.len(),
        forall|i: int| 0 <= i < n ==> a[i] == b[i],
    ensures
        rebased(img, a, n, base, forward, use_be, guarded) == rebased(
            img,
            b,
            n,
            base,
            forward,
            use_be,
            guarded,
        ),
    decreases n,
{
    if n > 0 {
        lemma_prefix_same(img, a, b, n - 1, base, forward, use_be, guarded);
    }
}

} // verus!
