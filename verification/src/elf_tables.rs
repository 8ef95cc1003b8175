//! The typed-table stage of the pipeline: every section that holds a table
//! has the transform of its kind applied to its bytes in the image.

use crate::bytes::overwrite;
use crate::image::{load_object, loaded_object, section_range, ObjectInfo, SectionModel};
use crate::names::{table_kind, table_kind_of};
use crate::tables::{
    table_transformed, transform_dynamic16, transform_rel16, transform_rela24, transform_relr8,
    transform_sym24, TableKind,
};
use vstd::prelude::*;

verus! {

/// The image after the table of one section was transformed. A section
/// without bytes in the file, with a range that leaves the image, or of no
/// table kind leaves the image as it is.
pub open spec fn table_step(img: Seq<u8>, sec: SectionModel, forward: bool) -> Seq<u8> {
    match (sec.file_range, table_kind_of(sec.name)) {
        (Some((off, size)), Some(kind)) => if off + size <= img.len() {
            overwrite(
                img,
                off as int,
                table_transformed(kind, img.subrange(off as int, off + size), forward),
            )
        } else {
            img
        },
        _ => img,
    }
}

/// The image after the tables of the first `n` sections were transformed,
/// one after the other.
pub open spec fn tables_applied(
    img: Seq<u8>,
    sections: Seq<SectionModel>,
    n: int,
    forward: bool,
) -> Seq<u8>
    decreases n,
{
    if n <= 0 {
        img
    } else {
        table_step(tables_applied(img, sections, n - 1, forward), sections[n - 1], forward)
    }
}

/// The image after the typed-table stage: unchanged where no supported
/// object is read from it.
pub open spec fn elf_tables_processed(data: Seq<u8>, forward: bool) -> Seq<u8> {
    match loaded_object(data) {
        Some(o) => tables_applied(data, o.sections, o.sections.len() as int, forward),
        None => data,
    }
}

/// The table stage keeps the length of the image.
pub proof fn lemma_tables_applied_len(
    img: Seq<u8>,
    sections: Seq<SectionModel>,
    n: int,
    forward: bool,
)
    ensures
        tables_applied(img, sections, n, forward).len() == img.len(),
    decreases n,
{
    if n > 0 {
        lemma_tables_applied_len(img, sections, n - 1, forward);
    }
}

/// Transforms a table of the given kind in place.
pub fn transform_table(buf: &mut [u8], kind: TableKind, is_compress: bool)
    ensures
        final(buf)@ == table_transformed(kind, old(buf)@, is_compress),
        final(buf)@.len() == old(buf)@.len(),
{
    match kind {
        TableKind::Rela => transform_rela24(buf, is_compress),
        TableKind::Rel => transform_rel16(buf, is_compress),
        TableKind::Sym => transform_sym24(buf, is_compress),
        TableKind::Relr => transform_relr8(buf, is_compress),
        TableKind::Dynamic => transform_dynamic16(buf, is_compress),
    }
}

/// Applies the table transforms to the sections of `obj`, in section order,
/// on a copy of the image.
pub fn transform_tables(file_data: &[u8], obj: &ObjectInfo, is_compress: bool) -> (out: Vec<u8>)
    ensures
        out@ == tables_applied(
            file_data@,
            obj@.sections,
            obj@.sections.len() as int,
            is_compress,
        ),
        out@.len() == file_data@.len(),
{
    let mut out = vstd::slice::slice_to_vec(file_data);
    let mut i: usize = 0;
    while i < obj.sections.len()
        invariant
            i <= obj.sections.len(),
            out@.len() == file_data@.len(),
            out@ == tables_applied(file_data@, obj@.sections, i as int, is_compress),
        decreases obj.sections.len() - i,
    {
        let sec = &obj.sections[i];
        let ghost before = out@;
        assert(sec@ == obj@.sections[i as int]);
        match section_range(sec, out.len()) {
            Some((off, size)) => {
                match table_kind(sec.name.as_slice()) {
                    Some(kind) => {
                        let (_, tail) = out.as_mut_slice().split_at_mut(off);
                        let (part, _) = tail.split_at_mut(size);
                        transform_table(part, kind, is_compress);
                        proof {
                            let done = table_transformed(
                                kind,
                                before.subrange(off as int, off + size),
                                is_compress,
                            );
                            assert(before.subrange(off as int, before.len() as int).subrange(
                                0,
                                size as int,
                            ) =~= before.subrange(off as int, off + size));
                            assert(out@ =~= overwrite(before, off as int, done));
                        }
                    },
                    None => {},
                }
            },
            None => {},
        }
        i = i + 1;
    }
    out
}

/// The typed-table stage: reads the object in `file_data` and, where it is
/// of the supported kind, transforms its tables; otherwise returns the image
/// unchanged.
pub fn process_elf_tables(file_data: &[u8], is_compress: bool) -> (out: Vec<u8>)
    ensures
        out@ == elf_tables_processed(file_data@, is_compress),
        out@.len() == file_data@.len(),
{
    match load_object(file_data) {
        Some(obj) => transform_tables(file_data, &obj, is_compress),
        None => vstd::slice::slice_to_vec(file_data),
    }
}

} // verus!
