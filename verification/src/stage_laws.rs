//! The side table is read back as it was written, and the typed-table
//! stage is undone by its inverse on tables that do not overlap.

use crate::elf_tables::{lemma_tables_applied_len, table_step, tables_applied};
use crate::error::DecodeError;
use crate::image::SectionModel;
use crate::jump::{
    entries_in_image, meta_entries, meta_tables, table_entries_meta, tables_in_image, tables_meta,
    JumpTable,
};
use crate::names::table_kind_of;
use crate::table_laws::lemma_table_round_trip;
use crate::tables::{table_transformed, TableKind};
use crate::varint::{lemma_varint_round_trip, varint_bytes};
use vstd::prelude::*;

verus! {

/// Offset and entry count of the tables from `k` on, as the side table
/// holds them.
pub open spec fn entries_of(tables: Seq<JumpTable>, k: int) -> Seq<(u64, u64)> {
    Seq::new(
        (tables.len() - k) as nat,
        |j: int| (tables[k + j].fo as u64, tables[k + j].count as u64),
    )
}

/// The tables from `k` on are read back from where they were written.
proof fn lemma_meta_entries(
    before: Seq<u8>,
    tables: Seq<JumpTable>,
    k: int,
    prev: u64,
    after: Seq<u8>,
)
    requires
        0 <= k <= tables.len(),
    ensures
        meta_entries(
            before + table_entries_meta(tables, k, prev) + after,
            before.len() as int,
            tables.len() - k,
            prev,
        ) == Ok::<Seq<(u64, u64)>, DecodeError>(entries_of(tables, k)),
    decreases tables.len() - k,
{
    let meta = before + table_entries_meta(tables, k, prev) + after;
    if k < tables.len() {
        let fo = tables[k].fo as u64;
        let count = tables[k].count as u64;
        let delta = vstd::wrapping::u64_specs::wrapping_sub(fo, prev);
        let a = varint_bytes(delta);
        let b = varint_bytes(count);
        let rest = table_entries_meta(tables, k + 1, fo);
        lemma_varint_round_trip(delta, before, b + rest + after);
        assert(before + a + (b + rest + after) =~= meta);
        lemma_varint_round_trip(count, before + a, rest + after);
        assert((before + a) + b + (rest + after) =~= meta);
        lemma_meta_entries(before + a + b, tables, k + 1, fo, after);
        assert((before + a + b) + rest + after =~= meta);
        assert(crate::tables::wadd64(prev, delta) == fo);
        assert(seq![(fo, count)] + entries_of(tables, k + 1) =~= entries_of(tables, k));
    } else {
        assert(entries_of(tables, k) =~= Seq::<(u64, u64)>::empty());
    }
}

/// The side table is read back as the tables it was written for, when they
/// lie within the image.
pub proof fn lemma_meta_round_trip(tables: Seq<JumpTable>, len: int)
    requires
        tables_in_image(tables, len),
        tables.len() <= u64::MAX,
    ensures
        meta_tables(tables_meta(tables), len) == Ok::<Seq<JumpTable>, DecodeError>(tables),
{
    let n = tables.len() as u64;
    let meta = tables_meta(tables);
    lemma_varint_round_trip(n, Seq::empty(), table_entries_meta(tables, 0, 0));
    assert(Seq::<u8>::empty() + varint_bytes(n) + table_entries_meta(tables, 0, 0) =~= meta);
    lemma_meta_entries(varint_bytes(n), tables, 0, 0, Seq::empty());
    assert(varint_bytes(n) + table_entries_meta(tables, 0, 0) + Seq::<u8>::empty() =~= meta);
    let entries = entries_of(tables, 0);
    assert(entries_in_image(entries, len));
    assert(Seq::new(
        entries.len(),
        |i: int| JumpTable { fo: entries[i].0 as usize, count: entries[i].1 as usize },
    ) =~= tables);
}

/// Where the table of a section lies in an image of `len` bytes and of what
/// kind it is, for a section whose table the stage transforms.
pub open spec fn table_range(sec: SectionModel, len: int) -> Option<(int, int, TableKind)> {
    match (sec.file_range, table_kind_of(sec.name)) {
        (Some((off, size)), Some(kind)) => if off + size <= len {
            Some((off as int, size as int, kind))
        } else {
            None
        },
        _ => None,
    }
}

/// Whether the tables of two sections share no byte of an image of `len`
/// bytes.
pub open spec fn tables_apart(a: SectionModel, b: SectionModel, len: int) -> bool {
    match (table_range(a, len), table_range(b, len)) {
        (Some((a_off, a_size, _)), Some((b_off, b_size, _))) => a_off + a_size <= b_off || b_off
            + b_size <= a_off,
        _ => true,
    }
}

/// Whether no two tables among the first `n` sections share a byte.
pub open spec fn tables_pairwise_apart(sections: Seq<SectionModel>, n: int, len: int) -> bool {
    forall|i: int, j: int|
        0 <= i < j < n ==> tables_apart(#[trigger] sections[i], #[trigger] sections[j], len)
}

/// The step of a section changes only the bytes of its table, and depends
/// only on them.
proof fn lemma_step_local(img: Seq<u8>, other: Seq<u8>, sec: SectionModel, forward: bool)
    requires
        img.len() == other.len(),
        table_range(sec, img.len() as int) matches Some((off, size, _)) ==> img.subrange(
            off,
            off + size,
        ) == other.subrange(off, off + size),
    ensures
        table_step(img, sec, forward).len() == img.len(),
        match table_range(sec, img.len() as int) {
            Some((off, size, kind)) => {
                &&& forall|k: int|
                    0 <= k < img.len() && !(off <= k < off + size) ==> table_step(
                        img,
                        sec,
                        forward,
                    )[k] == img[k]
                &&& table_step(img, sec, forward).subrange(off, off + size) == table_step(
                    other,
                    sec,
                    forward,
                ).subrange(off, off + size)
                &&& table_step(img, sec, forward).subrange(off, off + size) == table_transformed(
                    kind,
                    img.subrange(off, off + size),
                    forward,
                )
            },
            None => table_step(img, sec, forward) == img,
        },
{
    match table_range(sec, img.len() as int) {
        Some((off, size, kind)) => {
            let part = img.subrange(off, off + size);
            let done = table_transformed(kind, part, forward);
            assert(done.len() == size);
            crate::bytes::lemma_overwrite_read(img, off, done);
            crate::bytes::lemma_overwrite_read(other, off, done);
        },
        None => {},
    }
}

/// The steps of two sections whose tables share no byte give the same image
/// in either order.
proof fn lemma_steps_commute(
    img: Seq<u8>,
    p: SectionModel,
    dp: bool,
    q: SectionModel,
    dq: bool,
)
    requires
        tables_apart(p, q, img.len() as int),
    ensures
        table_step(table_step(img, p, dp), q, dq) == table_step(table_step(img, q, dq), p, dp),
{
    let len = img.len() as int;
    let ip = table_step(img, p, dp);
    let iq = table_step(img, q, dq);
    lemma_step_local(img, img, p, dp);
    lemma_step_local(img, img, q, dq);
    match (table_range(p, len), table_range(q, len)) {
        (Some((p_off, p_size, _)), Some((q_off, q_size, _))) => {
            assert(ip.subrange(q_off, q_off + q_size) =~= img.subrange(q_off, q_off + q_size));
            assert(iq.subrange(p_off, p_off + p_size) =~= img.subrange(p_off, p_off + p_size));
            lemma_step_local(ip, img, q, dq);
            lemma_step_local(iq, img, p, dp);
            let l = table_step(ip, q, dq);
            let r = table_step(iq, p, dp);
            assert forall|k: int| 0 <= k < len implies l[k] == r[k] by {
                if q_off <= k < q_off + q_size {
                    assert(l[k] == l.subrange(q_off, q_off + q_size)[k - q_off]);
                    assert(iq[k] == iq.subrange(q_off, q_off + q_size)[k - q_off]);
                    assert(r[k] == iq[k]);
                } else if p_off <= k < p_off + p_size {
                    assert(r[k] == r.subrange(p_off, p_off + p_size)[k - p_off]);
                    assert(ip[k] == ip.subrange(p_off, p_off + p_size)[k - p_off]);
                    assert(l[k] == ip[k]);
                } else {
                    assert(l[k] == ip[k]);
                    assert(ip[k] == img[k]);
                    assert(r[k] == iq[k]);
                    assert(iq[k] == img[k]);
                }
            }
            assert(l =~= r);
        },
        _ => {
            lemma_step_local(ip, ip, q, dq);
            lemma_step_local(iq, iq, p, dp);
        },
    }
}

/// The step of a section commutes with the steps of a list of sections whose
/// tables share no byte with its table.
proof fn lemma_list_commutes(
    img: Seq<u8>,
    sections: Seq<SectionModel>,
    n: int,
    dl: bool,
    p: SectionModel,
    dp: bool,
)
    requires
        0 <= n <= sections.len(),
        forall|i: int| 0 <= i < n ==> tables_apart(#[trigger] sections[i], p, img.len() as int),
    ensures
        tables_applied(table_step(img, p, dp), sections, n, dl) == table_step(
            tables_applied(img, sections, n, dl),
            p,
            dp,
        ),
    decreases n,
{
    if n > 0 {
        lemma_list_commutes(img, sections, n - 1, dl, p, dp);
        let mid = tables_applied(img, sections, n - 1, dl);
        lemma_tables_applied_len(img, sections, n - 1, dl);
        lemma_steps_commute(mid, p, dp, sections[n - 1], dl);
    }
}

/// Going back over one table that was transformed forward restores it.
proof fn lemma_step_back(img: Seq<u8>, sec: SectionModel)
    ensures
        table_step(table_step(img, sec, true), sec, false) == img,
{
    lemma_step_local(img, img, sec, true);
    let mid = table_step(img, sec, true);
    lemma_step_local(mid, mid, sec, false);
    match table_range(sec, img.len() as int) {
        Some((off, size, kind)) => {
            lemma_table_round_trip(kind, img.subrange(off, off + size));
            let back = table_step(mid, sec, false);
            assert forall|k: int| 0 <= k < img.len() implies back[k] == img[k] by {
                if off <= k < off + size {
                    assert(back[k] == back.subrange(off, off + size)[k - off]);
                    assert(img[k] == img.subrange(off, off + size)[k - off]);
                }
            }
            assert(back =~= img);
        },
        None => {},
    }
}

/// For sections whose tables share no byte: the stage going back undoes the
/// stage going forward.
pub proof fn lemma_tables_applied_back(img: Seq<u8>, sections: Seq<SectionModel>, n: int)
    requires
        0 <= n <= sections.len(),
        tables_pairwise_apart(sections, n, img.len() as int),
    ensures
        tables_applied(tables_applied(img, sections, n, true), sections, n, false) == img,
    decreases n,
{
    if n > 0 {
        let p = sections[n - 1];
        // The step forward of the last section can be moved to the front.
        lemma_list_commutes(img, sections, n - 1, true, p, true);
        let g = table_step(img, p, true);
        lemma_step_local(img, img, p, true);
        assert(tables_applied(img, sections, n, true) == tables_applied(
            g,
            sections,
            n - 1,
            true,
        ));
        lemma_tables_applied_back(g, sections, n - 1);
        lemma_step_back(img, p);
    }
}

} // verus!
