//! Decompression undoes compression, on the inputs on which every stage can
//! be undone.
//!
//! The transforms are found again on the way back by reading the object from
//! the transformed image and by decoding its code anew. So the way back
//! restores the image where the transforms leave alone what the stages
//! read: the headers of the object, the instruction boundaries, the header
//! of the exception-frame table. It also needs the rebased fields and the
//! typed tables not to overlap, and the entropy coder to give back what it
//! was given.

use crate::coder::{
    all_decodable, all_decoded, all_encoded, all_filtered, category_decoded, category_encoded,
};
use crate::container_laws::{lemma_all_unfilter_filter, lemma_parse_build, writable};
use crate::eh::{eh_frame_hdr_processed, eh_patches};
use crate::elf_tables::{elf_tables_processed, lemma_tables_applied_len, tables_applied};
use crate::error::DecodeError;
use crate::image::{image_base_of, loaded_object};
use crate::jump::{
    detected_tables, jump_tables_processed, table_patches, tables_meta, text_extent, JumpTable,
};
use crate::pipeline::{
    compressed, compressed_with_mode, container_of, decompressed, found_tables, patched, restored,
    side_table, transformed,
};
use crate::rebase::{lemma_rebased_len, rebased};
use crate::rebase_laws::{lemma_rebased_back, none_held_back, pairwise_apart};
use crate::router::{routed_labels, streams_of, streams_total};
use crate::router_laws::{
    lemma_join_split, lemma_runs_describe_labels, lemma_streams_share_image, run_categories_valid,
    run_list, run_total,
};
use crate::stage_facts::{
    lemma_detected_in_image, lemma_eh_patches_in_image, lemma_image_labels_valid,
    lemma_table_patches_in_image, lemma_text_patches_in_image,
};
use crate::stage_laws::{lemma_meta_round_trip, lemma_tables_applied_back, tables_pairwise_apart};
use crate::text::{binary_processed, text_patches};
use vstd::prelude::*;

verus! {

/// The image after the jump-table stage ran forward.
pub open spec fn after_jump_tables(data: Seq<u8>, use_be: bool) -> Seq<u8> {
    jump_tables_processed(patched(data, use_be), true, use_be, Seq::empty()).unwrap().0
}

/// Whether the stages can be undone on the image `data`.
///
/// An image from which no supported object is read is not transformed, and
/// nothing is asked of it. Otherwise: the same object is read from the image
/// after every stage; the code decodes to the same fields after its fields
/// were rebased; the search table is found again after its entries were
/// rebased; no two rebased fields of a stage overlap; no entry of the search
/// table is held back because its address does not fit 32 bits; no two typed
/// tables overlap; and the number of jump tables fits 64 bits.
pub open spec fn stages_undoable(data: Seq<u8>, use_be: bool) -> bool {
    match loaded_object(data) {
        None => true,
        Some(o) => {
            let n = o.sections.len() as int;
            let s1 = binary_processed(data, true, use_be);
            let s2 = patched(data, use_be);
            let s3 = after_jump_tables(data, use_be);
            let s4 = transformed(data, use_be);
            let in_text = text_patches(data, o.sections, n);
            let in_eh = eh_patches(s1, o.sections, n);
            let tables = found_tables(data, use_be);
            let in_tables = table_patches(o.sections, tables, tables.len() as int);
            &&& loaded_object(s1) == Some(o)
            &&& loaded_object(s2) == Some(o)
            &&& loaded_object(s3) == Some(o)
            &&& loaded_object(s4) == Some(o)
            &&& text_patches(s1, o.sections, n) == in_text
            &&& eh_patches(s2, o.sections, n) == in_eh
            &&& pairwise_apart(in_text)
            &&& pairwise_apart(in_eh)
            &&& pairwise_apart(in_tables)
            &&& none_held_back(s1, in_eh, image_base_of(o), true)
            &&& tables_pairwise_apart(o.sections, n, data.len() as int)
            &&& tables.len() <= u64::MAX
        },
    }
}

/// An image from which no supported object is read is not transformed: it
/// has no jump table and no side table, all its bytes are labelled OTHER,
/// and there is nothing to undo.
pub proof fn lemma_plain_image_undoable(data: Seq<u8>, use_be: bool)
    requires
        loaded_object(data) is None,
    ensures
        stages_undoable(data, use_be),
        transformed(data, use_be) == data,
        side_table(data, use_be) == Seq::<u8>::empty(),
        found_tables(data, use_be) == Seq::<JumpTable>::empty(),
        routed_labels(transformed(data, use_be), found_tables(data, use_be)) == Seq::new(
            data.len(),
            |k: int| crate::category::CAT_OTHER,
        ),
{
}

/// Decompression restores an image from which no supported object is read,
/// where the entropy coder gives back its stream.
pub proof fn lemma_plain_round_trip(data: Seq<u8>, use_be: bool)
    requires
        loaded_object(data) is None,
        data.len() < 0x1000_0000_0000_0000,
        data.len() <= usize::MAX,
        writable(container_of(data, use_be)),
        coder_restores(data, use_be),
    ensures
        decompressed(compressed_with_mode(data, use_be)) == Ok::<Seq<u8>, DecodeError>(data),
{
    lemma_plain_image_undoable(data, use_be);
    lemma_round_trip_with_mode(data, use_be);
}

/// The inverse transforms restore the image from the transformed image and
/// the side table, where the stages can be undone.
pub proof fn lemma_transforms_restore(data: Seq<u8>, use_be: bool)
    requires
        data.len() <= usize::MAX,
        stages_undoable(data, use_be),
    ensures
        restored(transformed(data, use_be), use_be, side_table(data, use_be)) == Ok::<
            Seq<u8>,
            DecodeError,
        >(data),
        transformed(data, use_be).len() == data.len(),
{
    match loaded_object(data) {
        None => {},
        Some(o) => {
            let len = data.len() as int;
            let n = o.sections.len() as int;
            let base = image_base_of(o);
            let in_text = text_patches(data, o.sections, n);
            let s1 = binary_processed(data, true, use_be);
            assert(s1 == rebased(data, in_text, in_text.len() as int, base, true, use_be, false));
            lemma_rebased_len(data, in_text, in_text.len() as int, base, true, use_be, false);
            lemma_text_patches_in_image(data, o.sections, n);
            lemma_rebased_back(data, in_text, in_text.len() as int, base, use_be, false);

            let in_eh = eh_patches(s1, o.sections, n);
            let s2 = patched(data, use_be);
            assert(s2 == rebased(s1, in_eh, in_eh.len() as int, base, true, use_be, true));
            lemma_rebased_len(s1, in_eh, in_eh.len() as int, base, true, use_be, true);
            lemma_eh_patches_in_image(s1, o.sections, n);
            lemma_rebased_back(s1, in_eh, in_eh.len() as int, base, use_be, true);

            let tables = found_tables(data, use_be);
            let meta = side_table(data, use_be);
            let s3 = after_jump_tables(data, use_be);
            let in_tables = table_patches(o.sections, tables, tables.len() as int);
            match text_extent(o.sections) {
                None => {
                    assert(s3 == s2);
                },
                Some((text_va, text_size)) => {
                    assert(tables == detected_tables(s2, o.sections, n, text_va, text_size));
                    assert(meta == tables_meta(tables));
                    assert(s3 == rebased(
                        s2,
                        in_tables,
                        in_tables.len() as int,
                        base,
                        true,
                        use_be,
                        false,
                    ));
                    lemma_detected_in_image(s2, o.sections, n, text_va, text_size);
                    lemma_table_patches_in_image(o.sections, tables, tables.len() as int, len);
                    lemma_rebased_len(
                        s2,
                        in_tables,
                        in_tables.len() as int,
                        base,
                        true,
                        use_be,
                        false,
                    );
                    lemma_rebased_back(s2, in_tables, in_tables.len() as int, base, use_be, false);
                    lemma_meta_round_trip(tables, len);
                },
            }
            let s4 = transformed(data, use_be);
            assert(s4 == tables_applied(s3, o.sections, n, true));
            lemma_tables_applied_len(s3, o.sections, n, true);
            lemma_tables_applied_back(s3, o.sections, n);
            // The way back.
            assert(elf_tables_processed(s4, false) == s3);
            let back = jump_tables_processed(s3, false, use_be, meta);
            assert(back is Ok && back->Ok_0.0 == s2);
            assert(eh_frame_hdr_processed(s2, false, use_be) == s1);
            assert(binary_processed(s1, false, use_be) == data);
        },
    }
}

/// Every stage keeps the length of the image.
pub proof fn lemma_transformed_len(data: Seq<u8>, use_be: bool)
    ensures
        binary_processed(data, true, use_be).len() == data.len(),
        patched(data, use_be).len() == data.len(),
        after_jump_tables(data, use_be).len() == data.len(),
        transformed(data, use_be).len() == data.len(),
{
    let s1 = binary_processed(data, true, use_be);
    match loaded_object(data) {
        None => {},
        Some(o) => {
            let p = text_patches(data, o.sections, o.sections.len() as int);
            lemma_rebased_len(data, p, p.len() as int, image_base_of(o), true, use_be, false);
        },
    }
    let s2 = patched(data, use_be);
    match loaded_object(s1) {
        None => {},
        Some(o) => {
            let p = eh_patches(s1, o.sections, o.sections.len() as int);
            lemma_rebased_len(s1, p, p.len() as int, image_base_of(o), true, use_be, true);
        },
    }
    let s3 = after_jump_tables(data, use_be);
    match loaded_object(s2) {
        None => {},
        Some(o) => {
            match text_extent(o.sections) {
                None => {},
                Some((text_va, text_size)) => {
                    let tables = detected_tables(
                        s2,
                        o.sections,
                        o.sections.len() as int,
                        text_va,
                        text_size,
                    );
                    let p = table_patches(o.sections, tables, tables.len() as int);
                    lemma_rebased_len(
                        s2,
                        p,
                        p.len() as int,
                        image_base_of(o),
                        true,
                        use_be,
                        false,
                    );
                },
            }
        },
    }
    match loaded_object(s3) {
        None => {},
        Some(o) => {
            lemma_tables_applied_len(s3, o.sections, o.sections.len() as int, true);
        },
    }
}

/// The container accounts for every byte of the image: the lengths of the
/// category streams that it holds in compressed form add up to the length
/// it declares, and its control stream reads as runs of the fifteen
/// categories whose counts add up to that length.
pub proof fn lemma_container_accounts_for_image(data: Seq<u8>, use_be: bool)
    requires
        data.len() < 0x1000_0000_0000_0000,
    ensures
        ({
            let c = container_of(data, use_be);
            let img = transformed(data, use_be);
            let streams = streams_of(img, routed_labels(img, found_tables(data, use_be)));
            &&& c.blocks == all_encoded(all_filtered(streams))
            &&& streams_total(streams, 15) == c.orig_len
            &&& run_list(c.runs, 0) is Ok
            &&& run_total(run_list(c.runs, 0)->Ok_0) == c.orig_len
            &&& run_categories_valid(run_list(c.runs, 0)->Ok_0)
        }),
{
    let img = transformed(data, use_be);
    let tables = found_tables(data, use_be);
    let labels = routed_labels(img, tables);
    lemma_transformed_len(data, use_be);
    lemma_image_labels_valid(img.len() as int, loaded_object(img), tables);
    lemma_streams_share_image(img, labels);
    lemma_runs_describe_labels(labels);
}

/// Whether the entropy coder gives back every filtered category stream of
/// the image.
pub open spec fn coder_restores(data: Seq<u8>, use_be: bool) -> bool {
    let img = transformed(data, use_be);
    let labels = routed_labels(img, found_tables(data, use_be));
    let streams = all_filtered(streams_of(img, labels));
    forall|c: int|
        0 <= c < 15 ==> #[trigger] category_decoded(category_encoded(c, streams[c])) == Ok::<
            Seq<u8>,
            DecodeError,
        >(streams[c])
}

/// Whether decompression restores the image `data` from its container in
/// one endian mode: the image is shorter than 2^60 bytes and than the
/// machine's limit, the lengths of the parts of its container fit 64 bits,
/// the stages can be undone, and the entropy coder gives back what it was
/// given.
pub open spec fn restorable(data: Seq<u8>, use_be: bool) -> bool {
    &&& data.len() < 0x1000_0000_0000_0000
    &&& data.len() <= usize::MAX
    &&& writable(container_of(data, use_be))
    &&& stages_undoable(data, use_be)
    &&& coder_restores(data, use_be)
}

/// Decompression restores a restorable image from the container of either
/// endian mode.
pub proof fn lemma_round_trip_with_mode(data: Seq<u8>, use_be: bool)
    requires
        restorable(data, use_be),
    ensures
        decompressed(compressed_with_mode(data, use_be)) == Ok::<Seq<u8>, DecodeError>(data),
{
    let c = container_of(data, use_be);
    let img = transformed(data, use_be);
    let tables = found_tables(data, use_be);
    let labels = routed_labels(img, tables);
    let streams = streams_of(img, labels);
    let filtered = all_filtered(streams);
    lemma_transforms_restore(data, use_be);
    lemma_parse_build(c);
    assert(all_decodable(c.blocks) && all_decoded(c.blocks) == Ok::<Seq<Seq<u8>>, DecodeError>(
        filtered,
    )) by {
        assert forall|k: int| 0 <= k < c.blocks.len() implies #[trigger] category_decoded(
            c.blocks[k],
        ).is_ok() by {
            assert(category_decoded(category_encoded(k, filtered[k])) == Ok::<
                Seq<u8>,
                DecodeError,
            >(filtered[k]));
        }
        assert(Seq::new(c.blocks.len(), |k: int| category_decoded(c.blocks[k]).unwrap())
            =~= filtered) by {
            assert forall|k: int| 0 <= k < 15 implies category_decoded(c.blocks[k]).unwrap()
                == filtered[k] by {
                assert(category_decoded(category_encoded(k, filtered[k])) == Ok::<
                    Seq<u8>,
                    DecodeError,
                >(filtered[k]));
            }
        }
    }
    lemma_all_unfilter_filter(streams);
    lemma_image_labels_valid(img.len() as int, loaded_object(img), tables);
    lemma_join_split(img, labels);
    assert(c.orig_len as usize as int == img.len());
}

/// Decompression restores an image that is restorable in both endian modes
/// from its container.
pub proof fn lemma_round_trip(data: Seq<u8>)
    requires
        restorable(data, false),
        restorable(data, true),
    ensures
        decompressed(compressed(data)) == Ok::<Seq<u8>, DecodeError>(data),
{
    lemma_round_trip_with_mode(data, false);
    lemma_round_trip_with_mode(data, true);
}

/// The probe keeps the smaller container: the container of an image is no
/// longer than the container of either endian mode.
pub proof fn lemma_probe_keeps_smaller(data: Seq<u8>)
    ensures
        compressed(data).len() <= compressed_with_mode(data, false).len(),
        compressed(data).len() <= compressed_with_mode(data, true).len(),
        compressed(data) == compressed_with_mode(data, false) || compressed(data)
            == compressed_with_mode(data, true),
{
}

} // verus!
