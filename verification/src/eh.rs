//! The patcher of the exception-frame header: the entries of its binary
//! search table are rebased from the address they are relative to, their own
//! or that of the section, to the image base.

use crate::bytes::{load_u32, u32_at};
use crate::image::{
    image_base, image_base_of, load_object, loaded_object, section_range, ObjectInfo, ObjectModel,
    SectionInfo, SectionModel,
};
use crate::names::name_is;
use crate::rebase::{patches_in_image, rebase_fields, rebased, FieldPatch};
use crate::tables::wadd64;
use vstd::prelude::*;
use vstd::string::StringSliceAdditionalSpecFns;

verus! {

/// The size in bytes of a value with the pointer encoding `enc`, where the
/// encoding fixes it: nothing for the omitted value, `ptr_size` for an
/// absolute pointer, 2, 4 or 8 for the fixed-width data formats. `None` for
/// the variable-length formats.
pub open spec fn eh_pe_size(enc: u8, ptr_size: int) -> Option<int> {
    if enc == 0xFF {
        Some(0)
    } else {
        let format = enc % 16;
        if format == 0 {
            Some(ptr_size)
        } else if format == 2 || format == 10 {
            Some(2)
        } else if format == 3 || format == 11 {
            Some(4)
        } else if format == 4 || format == 12 {
            Some(8)
        } else {
            None
        }
    }
}

/// The size of a value with the pointer encoding `enc`, where it is fixed.
pub fn eh_pe_fixed_size(enc: u8, ptr_size: usize) -> (r: Option<usize>)
    ensures
        match eh_pe_size(enc, ptr_size as int) {
            Some(n) => r == Some(n as usize),
            None => r.is_none(),
        },
{
    if enc == 0xFF {
        return Some(0);
    }
    assert(enc & 0x0F == enc % 16) by (bit_vector);
    let format = enc & 0x0F;
    if format == 0x00 {
        Some(ptr_size)
    } else if format == 0x02 || format == 0x0A {
        Some(2)
    } else if format == 0x03 || format == 0x0B {
        Some(4)
    } else if format == 0x04 || format == 0x0C {
        Some(8)
    } else {
        None
    }
}

/// Whether the table entries are relative to their own address.
pub open spec fn is_pcrel(data: Seq<u8>) -> bool {
    data[3] == 0x1b
}

/// Where the search table lies in the header `data`: the offset of its first
/// 32-bit field and the number of its fields, two for each entry. `None`
/// for a header that is shorter than 8 bytes, of another version than 1, with
/// a table that is neither relative to its fields nor to the section, with
/// an entry count that is not 4 bytes wide, or with a table that does not fit
/// the section.
pub open spec fn eh_layout(data: Seq<u8>) -> Option<(int, int)> {
    if data.len() < 8 || data[0] != 1 || (data[3] != 0x1b && data[3] != 0x3b) {
        None
    } else {
        match (eh_pe_size(data[1], 8), eh_pe_size(data[2], 8)) {
            (Some(skip), Some(width)) => {
                let pos = 4 + skip;
                if width != 4 || pos + 4 > data.len() {
                    None
                } else {
                    let fde_count = u32_at(data, pos);
                    if pos + 4 + fde_count * 8 <= data.len() {
                        Some((pos + 4, 2 * fde_count))
                    } else {
                        None
                    }
                }
            },
            _ => None,
        }
    }
}

/// Offset and length of the header in an image of `len` bytes: for a
/// section of the header's name whose bytes are in the file, whose data
/// length is that of its file range, and whose range lies within the image.
pub open spec fn eh_range(sec: SectionModel, len: int) -> Option<(int, int)> {
    match (sec.file_range, sec.data_len) {
        (Some((off, size)), Some(data_len)) => if sec.name == ".eh_frame_hdr".spec_bytes()
            && data_len == size && off + size <= len {
            Some((off as int, size as int))
        } else {
            None
        },
        _ => None,
    }
}

/// The field `i` of a search table whose first field lies `first` bytes into
/// a section at file offset `off` and virtual address `address`.
pub open spec fn eh_field(off: int, address: u64, first: int, pcrel: bool, i: int) -> FieldPatch {
    FieldPatch {
        fo: (off + first + 4 * i) as usize,
        va: if pcrel {
            wadd64(wadd64(address, first as u64), (4 * i) as u64)
        } else {
            address
        },
    }
}

/// The fields to rebase in one section.
pub open spec fn eh_section_patches(img: Seq<u8>, sec: SectionModel) -> Seq<FieldPatch> {
    match eh_range(sec, img.len() as int) {
        Some((off, size)) => {
            let data = img.subrange(off, off + size);
            match eh_layout(data) {
                Some((first, count)) => Seq::new(
                    count as nat,
                    |i: int| eh_field(off, sec.address, first, is_pcrel(data), i),
                ),
                None => Seq::empty(),
            }
        },
        None => Seq::empty(),
    }
}

/// The fields to rebase in the first `n` sections, in section order.
pub open spec fn eh_patches(img: Seq<u8>, sections: Seq<SectionModel>, n: int) -> Seq<FieldPatch>
    decreases n,
{
    if n <= 0 {
        Seq::empty()
    } else {
        eh_patches(img, sections, n - 1) + eh_section_patches(img, sections[n - 1])
    }
}

/// The image after the search table entries of the object `o` were rebased.
/// Going forward, an entry whose address does not fit 32 bits is left as it
/// is; going back, every entry is taken for a rebased one.
pub open spec fn eh_frame_hdr_patched(
    data: Seq<u8>,
    o: ObjectModel,
    forward: bool,
    use_be: bool,
) -> Seq<u8> {
    let patches = eh_patches(data, o.sections, o.sections.len() as int);
    rebased(data, patches, patches.len() as int, image_base_of(o), forward, use_be, true)
}

/// The image after the exception-frame header patcher ran on it: unchanged
/// where no supported object is read from it.
pub open spec fn eh_frame_hdr_processed(data: Seq<u8>, forward: bool, use_be: bool) -> Seq<u8> {
    match loaded_object(data) {
        Some(o) => eh_frame_hdr_patched(data, o, forward, use_be),
        None => data,
    }
}

/// Finds where the header of a section lies in an image of `len` bytes.
pub fn section_eh_range(sec: &SectionInfo, len: usize) -> (r: Option<(usize, usize)>)
    ensures
        match eh_range(sec@, len as int) {
            Some((off, size)) => r == Some((off as usize, size as usize)) && off + size <= len,
            None => r.is_none(),
        },
{
    if !name_is(sec.name.as_slice(), ".eh_frame_hdr".as_bytes()) {
        return None;
    }
    match (section_range(sec, len), sec.data_len) {
        (Some((off, size)), Some(data_len)) => {
            if data_len == size as u64 {
                Some((off, size))
            } else {
                None
            }
        },
        _ => None,
    }
}

/// Finds the search table in the header `data`.
pub fn find_eh_table(data: &[u8]) -> (r: Option<(usize, usize)>)
    ensures
        match eh_layout(data@) {
            Some((first, count)) => r == Some((first as usize, count as usize)) && first + 4
                * count <= data.len(),
            None => r.is_none(),
        },
{
    if data.len() < 8 {
        return None;
    }
    let version = data[0];
    let eh_frame_ptr_enc = data[1];
    let fde_count_enc = data[2];
    let table_enc = data[3];
    if version != 1 {
        return None;
    }
    if table_enc != 0x1b && table_enc != 0x3b {
        return None;
    }
    let skip = match eh_pe_fixed_size(eh_frame_ptr_enc, 8) {
        Some(n) => n,
        None => {
            return None;
        },
    };
    let width = match eh_pe_fixed_size(fde_count_enc, 8) {
        Some(n) => n,
        None => {
            return None;
        },
    };
    let pos = 4 + skip;
    if width != 4 || pos + 4 > data.len() {
        return None;
    }
    let fde_count = load_u32(data, pos);
    let room: u64 = (data.len() - (pos + 4)) as u64;
    if fde_count as u64 * 8 <= room {
        Some((pos + 4, 2 * (fde_count as usize)))
    } else {
        None
    }
}

/// Appends the fields to rebase of one section.
pub fn push_eh_patches(img: &[u8], sec: &SectionInfo, patches: &mut Vec<FieldPatch>)
    requires
        patches_in_image(old(patches)@, img.len() as int),
    ensures
        final(patches)@ == old(patches)@ + eh_section_patches(img@, sec@),
        patches_in_image(final(patches)@, img.len() as int),
{
    let (off, size) = match section_eh_range(sec, img.len()) {
        Some(r) => r,
        None => {
            proof {
                assert(patches@ + Seq::<FieldPatch>::empty() =~= patches@);
            }
            return ;
        },
    };
    let data = vstd::slice::slice_subrange(img, off, off + size);
    let (first, count) = match find_eh_table(data) {
        Some(r) => r,
        None => {
            proof {
                assert(patches@ + Seq::<FieldPatch>::empty() =~= patches@);
            }
            return ;
        },
    };
    let pcrel = data[3] == 0x1b;
    let first_va = sec.address.wrapping_add(first as u64);
    let ghost all = eh_section_patches(img@, sec@);
    let mut i: usize = 0;
    while i < count
        invariant
            i <= count,
            off + size <= img.len(),
            first + 4 * count <= size,
            first_va == wadd64(sec.address, first as u64),
            all.len() == count,
            forall|k: int|
                0 <= k < count ==> all[k] == eh_field(
                    off as int,
                    sec.address,
                    first as int,
                    pcrel,
                    k,
                ),
            patches@ == old(patches)@ + all.take(i as int),
            patches_in_image(patches@, img.len() as int),
        decreases count - i,
    {
        let va = if pcrel {
            first_va.wrapping_add((4 * i) as u64)
        } else {
            sec.address
        };
        patches.push(FieldPatch { fo: off + first + 4 * i, va });
        proof {
            assert(all.take(i + 1) =~= all.take(i as int).push(all[i as int]));
            assert(patches@ =~= old(patches)@ + all.take(i + 1));
        }
        i = i + 1;
    }
    proof {
        assert(all.take(count as int) =~= all);
    }
}

/// Collects the fields to rebase in the exception-frame headers of `obj`.
pub fn collect_eh_patches(img: &[u8], obj: &ObjectInfo) -> (patches: Vec<FieldPatch>)
    ensures
        patches@ == eh_patches(img@, obj@.sections, obj@.sections.len() as int),
        patches_in_image(patches@, img.len() as int),
{
    let mut patches: Vec<FieldPatch> = Vec::new();
    let mut i: usize = 0;
    while i < obj.sections.len()
        invariant
            i <= obj.sections.len(),
            patches@ == eh_patches(img@, obj@.sections, i as int),
            patches_in_image(patches@, img.len() as int),
        decreases obj.sections.len() - i,
    {
        let sec = &obj.sections[i];
        assert(sec@ == obj@.sections[i as int]);
        push_eh_patches(img, sec, &mut patches);
        i = i + 1;
    }
    patches
}

/// Rebases the search table entries of the image for the object `obj`.
pub fn patch_eh_frame_hdr(
    file_data: &[u8],
    obj: &ObjectInfo,
    is_compress: bool,
    use_be: bool,
) -> (out: Vec<u8>)
    ensures
        out@ == eh_frame_hdr_patched(file_data@, obj@, is_compress, use_be),
        out@.len() == file_data@.len(),
{
    let mut out = vstd::slice::slice_to_vec(file_data);
    let base = image_base(obj);
    let patches = collect_eh_patches(file_data, obj);
    rebase_fields(out.as_mut_slice(), &patches, base, is_compress, use_be, true);
    out
}

/// The exception-frame header patcher: reads the object in `file_data` and,
/// where it is of the supported kind, rebases the entries of the search
/// table; otherwise returns the image unchanged.
pub fn process_eh_frame_hdr(file_data: &[u8], is_compress: bool, use_be: bool) -> (out: Vec<u8>)
    ensures
        out@ == eh_frame_hdr_processed(file_data@, is_compress, use_be),
        out@.len() == file_data@.len(),
{
    match load_object(file_data) {
        Some(obj) => patch_eh_frame_hdr(file_data, &obj, is_compress, use_be),
        None => vstd::slice::slice_to_vec(file_data),
    }
}

} // verus!
