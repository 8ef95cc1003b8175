//! The instruction patcher: the IP-relative displacements and the near
//! branch targets in code sections are rebased from the address after
//! their instruction to the image base.

use crate::image::{
    image_base, image_base_of, load_object, loaded_object, section_range, ObjectInfo, ObjectModel,
    SectionInfo, SectionModel,
};
use crate::rebase::{patches_in_image, rebase_fields, rebased, FieldPatch};
use crate::tables::wadd64;
use iced_x86::{Decoder, DecoderOptions};
use vstd::prelude::*;

verus! {

/// What the patcher reads of one decoded instruction.
#[derive(Clone, Copy, Debug, PartialEq, Eq, Structural)]
pub struct InstrInfo {
    /// The length of the instruction in bytes.
    pub len: usize,
    /// Whether the instruction has a memory operand relative to the
    /// instruction pointer.
    pub ip_rel_memory_operand: bool,
    /// Whether the instruction is a near call.
    pub call_near: bool,
    /// Whether the instruction is a near unconditional jump.
    pub jmp_near: bool,
    /// Whether the instruction is a short or near conditional jump.
    pub jcc_short_or_near: bool,
    /// Whether the instruction has a displacement.
    pub has_displacement: bool,
    /// The size of the displacement in bytes.
    pub displacement_size: usize,
    /// The offset of the displacement within the instruction.
    pub displacement_offset: usize,
    /// Whether the instruction has an immediate.
    pub has_immediate: bool,
    /// The size of the immediate in bytes.
    pub immediate_size: usize,
    /// The offset of the immediate within the instruction.
    pub immediate_offset: usize,
}

/// What the instruction decoder finds at the start of `code` in 64-bit mode,
/// when the first byte of `code` has the address `ip`.
pub uninterp spec fn decoded_instruction(code: Seq<u8>, ip: u64) -> InstrInfo;

/// `iced_x86::Decoder::with_ip`, `decode` and `get_constant_offsets`: a fresh
/// decoder over `code` decodes the first instruction; what it reports of
/// the instruction is a function of the bytes and of the address. The crate
/// refuses a bitness other than 16, 32 or 64.
#[verifier::external_body]
fn decode_instruction(code: &[u8], ip: u64, bitness: u32) -> (r: InstrInfo)
    requires
        bitness == 64,
    ensures
        r == decoded_instruction(code@, ip),
{
    let mut decoder = Decoder::with_ip(bitness, code, ip, DecoderOptions::NONE);
    let inst = decoder.decode();
    let co = decoder.get_constant_offsets(&inst);
    InstrInfo {
        len: inst.len(),
        ip_rel_memory_operand: inst.is_ip_rel_memory_operand(),
        call_near: inst.is_call_near(),
        jmp_near: inst.is_jmp_near(),
        jcc_short_or_near: inst.is_jcc_short_or_near(),
        has_displacement: co.has_displacement(),
        displacement_size: co.displacement_size(), displacement_offset: co.displacement_offset(),
        has_immediate: co.has_immediate(),
        immediate_size: co.immediate_size(), immediate_offset: co.immediate_offset(),
    }
}

/// Whether the instruction has a 4-byte IP-relative displacement.
pub open spec fn has_rel_displacement(info: InstrInfo) -> bool {
    info.ip_rel_memory_operand && info.has_displacement && info.displacement_size == 4
}

/// Whether the instruction is a near call or jump with a 4-byte target.
pub open spec fn has_rel_branch(info: InstrInfo) -> bool {
    (info.call_near || info.jmp_near || info.jcc_short_or_near) && info.has_immediate
        && info.immediate_size == 4
}

/// The fields to rebase of one instruction that starts at file offset
/// `inst_fo` and is followed by the address `next_ip`: its IP-relative
/// displacement, then its branch target, each where the instruction has it
/// and the field lies within the image.
pub open spec fn instruction_patches(
    info: InstrInfo,
    inst_fo: int,
    next_ip: u64,
    image_len: int,
) -> Seq<FieldPatch> {
    let disp = if has_rel_displacement(info) && inst_fo + info.displacement_offset + 4
        <= image_len {
        seq![FieldPatch { fo: (inst_fo + info.displacement_offset) as usize, va: next_ip }]
    } else {
        Seq::empty()
    };
    let branch = if has_rel_branch(info) && inst_fo + info.immediate_offset + 4 <= image_len {
        seq![FieldPatch { fo: (inst_fo + info.immediate_offset) as usize, va: next_ip }]
    } else {
        Seq::empty()
    };
    disp + branch
}

/// The fields to rebase in the code `code` from byte `pos` on. The code
/// starts at virtual address `va` and at file offset `file_off`; it is
/// decoded instruction by instruction until an instruction reaches past
/// its end.
pub open spec fn code_patches(
    code: Seq<u8>,
    va: u64,
    file_off: int,
    image_len: int,
    pos: int,
) -> Seq<FieldPatch>
    decreases code.len() - pos,
{
    if pos < 0 || pos >= code.len() {
        Seq::empty()
    } else {
        let ip = wadd64(va, pos as u64);
        let info = decoded_instruction(code.subrange(pos, code.len() as int), ip);
        if info.len == 0 || pos + info.len > code.len() {
            Seq::empty()
        } else {
            instruction_patches(info, file_off + pos, wadd64(ip, info.len as u64), image_len)
                + code_patches(code, va, file_off, image_len, pos + info.len)
        }
    }
}

/// Offset and length of the code of a section in an image of `len` bytes:
/// for a code section whose bytes are in the file, whose data length is
/// that of its file range, and whose range lies within the image.
pub open spec fn code_range(sec: SectionModel, len: int) -> Option<(int, int)> {
    match (sec.file_range, sec.data_len) {
        (Some((off, size)), Some(data_len)) => if sec.is_text && data_len == size && off + size
            <= len {
            Some((off as int, size as int))
        } else {
            None
        },
        _ => None,
    }
}

/// The fields to rebase in one section.
pub open spec fn section_patches(img: Seq<u8>, sec: SectionModel) -> Seq<FieldPatch> {
    match code_range(sec, img.len() as int) {
        Some((off, size)) => code_patches(
            img.subrange(off, off + size),
            sec.address,
            off,
            img.len() as int,
            0,
        ),
        None => Seq::empty(),
    }
}

/// The fields to rebase in the first `n` sections, in section order.
pub open spec fn text_patches(img: Seq<u8>, sections: Seq<SectionModel>, n: int) -> Seq<FieldPatch>
    decreases n,
{
    if n <= 0 {
        Seq::empty()
    } else {
        text_patches(img, sections, n - 1) + section_patches(img, sections[n - 1])
    }
}

/// The image after the code fields of the object `o` were rebased: every
/// field becomes its value plus the address after its instruction, minus the
/// image base, modulo 2^32; going back this is undone.
pub open spec fn text_patched(
    data: Seq<u8>,
    o: ObjectModel,
    forward: bool,
    use_be: bool,
) -> Seq<u8> {
    let patches = text_patches(data, o.sections, o.sections.len() as int);
    rebased(data, patches, patches.len() as int, image_base_of(o), forward, use_be, false)
}

/// The image after the instruction patcher ran on it: unchanged where no
/// supported object is read from it.
pub open spec fn binary_processed(data: Seq<u8>, forward: bool, use_be: bool) -> Seq<u8> {
    match loaded_object(data) {
        Some(o) => text_patched(data, o, forward, use_be),
        None => data,
    }
}

/// Appends the fields to rebase of one instruction.
pub fn push_instruction_patches(
    info: &InstrInfo,
    inst_fo: usize,
    next_ip: u64,
    image_len: usize,
    patches: &mut Vec<FieldPatch>,
)
    requires
        inst_fo <= image_len,
        patches_in_image(old(patches)@, image_len as int),
    ensures
        final(patches)@ == old(patches)@ + instruction_patches(
            *info,
            inst_fo as int,
            next_ip,
            image_len as int,
        ),
        patches_in_image(final(patches)@, image_len as int),
{
    let room = image_len - inst_fo;
    if info.ip_rel_memory_operand && info.has_displacement && info.displacement_size == 4
        && info.displacement_offset <= room && 4 <= room - info.displacement_offset {
        patches.push(FieldPatch { fo: inst_fo + info.displacement_offset, va: next_ip });
    }
    if (info.call_near || info.jmp_near || info.jcc_short_or_near) && info.has_immediate
        && info.immediate_size == 4 && info.immediate_offset <= room && 4 <= room
        - info.immediate_offset {
        patches.push(FieldPatch { fo: inst_fo + info.immediate_offset, va: next_ip });
    }
    proof {
        assert(patches@ =~= old(patches)@ + instruction_patches(
            *info,
            inst_fo as int,
            next_ip,
            image_len as int,
        ));
    }
}

/// Appends the fields to rebase in the code at `img[off..off + len]`, which
/// is loaded at virtual address `va`.
pub fn push_code_patches(
    img: &[u8],
    off: usize,
    len: usize,
    va: u64,
    patches: &mut Vec<FieldPatch>,
)
    requires
        off + len <= img.len(),
        patches_in_image(old(patches)@, img.len() as int),
    ensures
        final(patches)@ == old(patches)@ + code_patches(
            img@.subrange(off as int, off + len),
            va,
            off as int,
            img.len() as int,
            0,
        ),
        patches_in_image(final(patches)@, img.len() as int),
{
    let code = vstd::slice::slice_subrange(img, off, off + len);
    let mut pos: usize = 0;
    let ghost all = code_patches(code@, va, off as int, img.len() as int, 0);
    while pos < len
        invariant_except_break
            pos <= len,
            patches@ + code_patches(code@, va, off as int, img.len() as int, pos as int)
                == old(patches)@ + all,
        invariant
            code@.len() == len,
            off + len <= img.len(),
            all == code_patches(code@, va, off as int, img.len() as int, 0),
            patches_in_image(patches@, img.len() as int),
        ensures
            patches@ == old(patches)@ + all,
        decreases len - pos,
    {
        let ip = va.wrapping_add(pos as u64);
        let info = decode_instruction(vstd::slice::slice_subrange(code, pos, len), ip, 64);
        if info.len == 0 || info.len > len - pos {
            proof {
                assert(patches@ + Seq::<FieldPatch>::empty() =~= patches@);
            }
            break ;
        }
        let next_ip = ip.wrapping_add(info.len as u64);
        let ghost before = patches@;
        let ghost rest = code_patches(
            code@,
            va,
            off as int,
            img.len() as int,
            pos + info.len,
        );
        push_instruction_patches(&info, off + pos, next_ip, img.len(), patches);
        proof {
            let one = instruction_patches(info, off + pos, next_ip, img.len() as int);
            assert((before + one) + rest =~= before + (one + rest));
        }
        pos = pos + info.len;
    }
    proof {
        if pos >= len {
            assert(patches@ + Seq::<FieldPatch>::empty() =~= patches@);
        }
    }
}

/// Finds where the code of a section lies in an image of `len` bytes.
pub fn section_code_range(sec: &SectionInfo, len: usize) -> (r: Option<(usize, usize)>)
    ensures
        match code_range(sec@, len as int) {
            Some((off, size)) => r == Some((off as usize, size as usize)) && off + size <= len,
            None => r.is_none(),
        },
{
    if !sec.is_text {
        return None;
    }
    match (section_range(sec, len), sec.data_len) {
        (Some((off, size)), Some(data_len)) => {
            if data_len == size as u64 {
                Some((off, size))
            } else {
                None
            }
        },
        _ => None,
    }
}

/// Collects the fields to rebase in the code sections of `obj`.
pub fn collect_text_patches(img: &[u8], obj: &ObjectInfo) -> (patches: Vec<FieldPatch>)
    ensures
        patches@ == text_patches(img@, obj@.sections, obj@.sections.len() as int),
        patches_in_image(patches@, img.len() as int),
{
    let mut patches: Vec<FieldPatch> = Vec::new();
    let mut i: usize = 0;
    while i < obj.sections.len()
        invariant
            i <= obj.sections.len(),
            patches@ == text_patches(img@, obj@.sections, i as int),
            patches_in_image(patches@, img.len() as int),
        decreases obj.sections.len() - i,
    {
        let sec = &obj.sections[i];
        assert(sec@ == obj@.sections[i as int]);
        match section_code_range(sec, img.len()) {
            Some((off, size)) => {
                push_code_patches(img, off, size, sec.address, &mut patches);
            },
            None => {
                proof {
                    assert(patches@ + Seq::<FieldPatch>::empty() =~= patches@);
                }
            },
        }
        i = i + 1;
    }
    patches
}

/// Rebases the code fields of the image for the object `obj`.
pub fn patch_text(
    file_data: &[u8],
    obj: &ObjectInfo,
    is_compress: bool,
    use_be: bool,
) -> (out: Vec<u8>)
    ensures
        out@ == text_patched(file_data@, obj@, is_compress, use_be),
        out@.len() == file_data@.len(),
{
    let mut out = vstd::slice::slice_to_vec(file_data);
    let base = image_base(obj);
    let patches = collect_text_patches(file_data, obj);
    rebase_fields(out.as_mut_slice(), &patches, base, is_compress, use_be, false);
    out
}

/// The instruction patcher: reads the object in `file_data` and, where it is
/// of the supported kind, rebases the displacement and branch fields of its
/// code; otherwise returns the image unchanged.
pub fn process_binary(file_data: &[u8], is_compress: bool, use_be: bool) -> (out: Vec<u8>)
    ensures
        out@ == binary_processed(file_data@, is_compress, use_be),
        out@.len() == file_data@.len(),
{
    match load_object(file_data) {
        Some(obj) => patch_text(file_data, &obj, is_compress, use_be),
        None => vstd::slice::slice_to_vec(file_data),
    }
}

} // verus!
