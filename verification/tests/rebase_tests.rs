use fesh_comp::eh::{
    collect_eh_patches, eh_pe_fixed_size, find_eh_table, patch_eh_frame_hdr, section_eh_range,
};
use fesh_comp::image::{image_base, ObjectInfo, SectionInfo};
use fesh_comp::jump::{
    collect_table_patches, detect_jump_tables, entry_points_into_text, file_to_va, find_text,
    patch_jump_tables, read_tables_meta, section_table_range, write_tables_meta, JumpTable,
};
use fesh_comp::error::DecodeError;
use fesh_comp::rebase::{rebase_field, rebase_fields, sign_extend, FieldPatch};
use iced_x86::{Decoder, DecoderOptions};
use fesh_comp::text::{
    collect_text_patches, patch_text, push_code_patches, push_instruction_patches,
    section_code_range, InstrInfo,
};

fn section(name: &[u8], address: u64, off: u64, size: u64) -> SectionInfo {
    SectionInfo {
        name: name.to_vec(),
        is_text: false,
        address,
        size,
        file_range: Some((off, size)),
        data_len: Some(size),
    }
}

fn object(segments: Vec<u64>, sections: Vec<SectionInfo>) -> ObjectInfo {
    ObjectInfo { is_x86_64: true, is_little_endian: true, is_64: true, segments, sections }
}

#[test]
fn sign_extension_of_32_bit_values() {
    assert_eq!(sign_extend(0), 0);
    assert_eq!(sign_extend(0x7FFF_FFFF), 0x7FFF_FFFF);
    assert_eq!(sign_extend(0x8000_0000), 0xFFFF_FFFF_8000_0000);
    assert_eq!(sign_extend(0xFFFF_FFFF), u64::MAX);
}

#[test]
fn image_base_is_the_least_segment_address() {
    assert_eq!(image_base(&object(vec![], vec![])), 0);
    assert_eq!(image_base(&object(vec![0x40_0000], vec![])), 0x40_0000);
    assert_eq!(image_base(&object(vec![0x60_0000, 0x40_0000, 0x50_0000], vec![])), 0x40_0000);
    assert_eq!(image_base(&object(vec![u64::MAX], vec![])), u64::MAX);
}

#[test]
fn a_field_is_rebased_to_the_image_base() {
    // displacement 0x10 at a field relative to 0x401005, image base 0x400000
    let mut img = vec![0xEE, 0x10, 0, 0, 0, 0xEE];
    let patch = FieldPatch { fo: 1, va: 0x40_1005 };
    rebase_field(&mut img, patch, 0x40_0000, true, false, false);
    assert_eq!(img, vec![0xEE, 0x15, 0x10, 0, 0, 0xEE]);
    rebase_field(&mut img, patch, 0x40_0000, false, false, false);
    assert_eq!(img, vec![0xEE, 0x10, 0, 0, 0, 0xEE]);
}

#[test]
fn a_rebased_field_is_stored_big_endian_in_swapped_mode() {
    let mut img = vec![0x10, 0, 0, 0];
    let patch = FieldPatch { fo: 0, va: 0x40_1005 };
    rebase_field(&mut img, patch, 0x40_0000, true, true, false);
    assert_eq!(img, vec![0, 0, 0x10, 0x15]);
    rebase_field(&mut img, patch, 0x40_0000, false, true, false);
    assert_eq!(img, vec![0x10, 0, 0, 0]);
}

#[test]
fn a_negative_displacement_is_sign_extended() {
    // -16 relative to 0x401000 points to 0x400FF0
    let mut img = vec![0xF0, 0xFF, 0xFF, 0xFF];
    let patch = FieldPatch { fo: 0, va: 0x40_1000 };
    rebase_field(&mut img, patch, 0x40_0000, true, false, true);
    assert_eq!(img, vec![0xF0, 0x0F, 0, 0]);
    rebase_field(&mut img, patch, 0x40_0000, false, false, true);
    assert_eq!(img, vec![0xF0, 0xFF, 0xFF, 0xFF]);
}

#[test]
fn the_guard_holds_back_an_address_that_does_not_fit_32_bits() {
    // 0x10 relative to 0x1_0000_0000 with base 0 does not fit
    let mut img = vec![0x10, 0, 0, 0];
    let patch = FieldPatch { fo: 0, va: 0x1_0000_0000 };
    rebase_field(&mut img, patch, 0, true, false, true);
    assert_eq!(img, vec![0x10, 0, 0, 0]);
    // without the guard the low 32 bits are stored
    rebase_field(&mut img, patch, 0, true, false, false);
    assert_eq!(img, vec![0x10, 0, 0, 0]);
    // an address below the image base wraps and is held back too
    let mut img = vec![0, 0, 0, 0];
    let patch = FieldPatch { fo: 0, va: 0x1000 };
    rebase_field(&mut img, patch, 0x2000, true, false, true);
    assert_eq!(img, vec![0, 0, 0, 0]);
    rebase_field(&mut img, patch, 0x2000, true, false, false);
    assert_eq!(img, vec![0, 0xF0, 0xFF, 0xFF]);
}

#[test]
fn fields_are_rebased_in_order_and_back() {
    let original = vec![1u8, 0, 0, 0, 2, 0, 0, 0, 9, 9, 3, 0, 0, 0];
    let patches = vec![
        FieldPatch { fo: 0, va: 0x1000 },
        FieldPatch { fo: 4, va: 0x2000 },
        FieldPatch { fo: 10, va: 0x3000 },
    ];
    for use_be in [false, true] {
        let mut img = original.clone();
        rebase_fields(&mut img, &patches, 0x800, true, use_be, false);
        if !use_be {
            assert_eq!(img, vec![1, 8, 0, 0, 2, 0x18, 0, 0, 9, 9, 3, 0x28, 0, 0]);
        } else {
            assert_eq!(img, vec![0, 0, 8, 1, 0, 0, 0x18, 2, 9, 9, 0, 0, 0x28, 3]);
        }
        rebase_fields(&mut img, &patches, 0x800, false, use_be, false);
        assert_eq!(img, original);
    }
}

fn instruction(len: usize) -> InstrInfo {
    InstrInfo {
        len,
        ip_rel_memory_operand: false,
        call_near: false,
        jmp_near: false,
        jcc_short_or_near: false,
        has_displacement: false,
        displacement_size: 0,
        displacement_offset: 0,
        has_immediate: false,
        immediate_size: 0,
        immediate_offset: 0,
    }
}

#[test]
fn patches_of_one_instruction() {
    let mut patches = Vec::new();
    let mut info = instruction(7);
    push_instruction_patches(&info, 100, 0x1007, 1000, &mut patches);
    assert!(patches.is_empty());
    info.ip_rel_memory_operand = true;
    info.has_displacement = true;
    info.displacement_size = 4;
    info.displacement_offset = 3;
    push_instruction_patches(&info, 100, 0x1007, 1000, &mut patches);
    assert_eq!(patches, vec![FieldPatch { fo: 103, va: 0x1007 }]);
    info.call_near = true;
    info.has_immediate = true;
    info.immediate_size = 4;
    info.immediate_offset = 1;
    let mut patches = Vec::new();
    push_instruction_patches(&info, 100, 0x1007, 1000, &mut patches);
    assert_eq!(
        patches,
        vec![FieldPatch { fo: 103, va: 0x1007 }, FieldPatch { fo: 101, va: 0x1007 }]
    );
    // a field that reaches past the image is not patched
    let mut patches = Vec::new();
    push_instruction_patches(&info, 100, 0x1007, 106, &mut patches);
    assert_eq!(patches, vec![FieldPatch { fo: 101, va: 0x1007 }]);
    // sizes other than 4 are not patched
    info.displacement_size = 1;
    info.immediate_size = 1;
    let mut patches = Vec::new();
    push_instruction_patches(&info, 100, 0x1007, 1000, &mut patches);
    assert!(patches.is_empty());
}

#[test]
fn the_decoder_finds_calls_jumps_and_rip_relative_operands() {
    // call +0 ; mov rax, [rip+0x10] ; nop ; jmp +4 ; je +8 (near) ; jmp short
    let code: Vec<u8> = vec![
        0xE8, 0, 0, 0, 0, // 0: call rel32
        0x48, 0x8B, 0x05, 0x10, 0, 0, 0, // 5: mov rax, [rip+0x10]
        0x90, // 12: nop
        0xE9, 4, 0, 0, 0, // 13: jmp rel32
        0x0F, 0x84, 8, 0, 0, 0, // 18: je rel32
        0xEB, 0x02, // 24: jmp rel8
        0x48, 0x89, 0xC3, // 26: mov rbx, rax
    ];
    let mut img = vec![0xCCu8; 16];
    img.extend(&code);
    img.extend(vec![0xCCu8; 8]);
    let mut patches = Vec::new();
    push_code_patches(&img, 16, code.len(), 0x40_1000, &mut patches);
    assert_eq!(
        patches,
        vec![
            FieldPatch { fo: 17, va: 0x40_1005 },
            FieldPatch { fo: 24, va: 0x40_100C },
            FieldPatch { fo: 30, va: 0x40_1012 },
            FieldPatch { fo: 36, va: 0x40_1018 },
        ]
    );
}

#[test]
fn an_instruction_cut_off_by_the_end_of_the_code_is_not_patched() {
    // call rel32 with only three bytes of the target present
    let img: Vec<u8> = vec![0x90, 0xE8, 0, 0, 0];
    let mut patches = Vec::new();
    push_code_patches(&img, 0, 5, 0x1000, &mut patches);
    assert!(patches.is_empty());
    let mut patches = Vec::new();
    push_code_patches(&img, 0, 0, 0x1000, &mut patches);
    assert!(patches.is_empty());
}

fn text_object(off: u64, size: u64) -> ObjectInfo {
    let mut text = section(b".text", 0x40_1000, off, size);
    text.is_text = true;
    object(vec![0x40_0000], vec![text])
}

#[test]
fn code_fields_are_normalized_to_next_ip_minus_image_base() {
    let mut img = vec![0u8; 8];
    img.extend([0xE8, 0x20, 0, 0, 0, 0x90, 0x90, 0x90]);
    let obj = text_object(8, 8);
    assert_eq!(collect_text_patches(&img, &obj), vec![FieldPatch { fo: 9, va: 0x40_1005 }]);
    let out = patch_text(&img, &obj, true, false);
    // 0x20 + 0x401005 - 0x400000 = 0x1025
    assert_eq!(&out[8..], &[0xE8, 0x25, 0x10, 0, 0, 0x90, 0x90, 0x90]);
    assert_eq!(patch_text(&out, &obj, false, false), img);
    let out = patch_text(&img, &obj, true, true);
    assert_eq!(&out[8..], &[0xE8, 0, 0, 0x10, 0x25, 0x90, 0x90, 0x90]);
    assert_eq!(patch_text(&out, &obj, false, true), img);
}

#[test]
fn code_sections_that_do_not_fit_are_skipped() {
    let mut img = vec![0u8; 8];
    img.extend([0xE8, 0x20, 0, 0, 0, 0x90, 0x90, 0x90]);
    // data length differs from the file range
    let mut obj = text_object(8, 8);
    obj.sections[0].data_len = Some(7);
    assert!(collect_text_patches(&img, &obj).is_empty());
    // no data
    obj.sections[0].data_len = None;
    assert!(collect_text_patches(&img, &obj).is_empty());
    // range leaves the image
    let obj = text_object(9, 8);
    assert!(collect_text_patches(&img, &obj).is_empty());
    // not code
    let mut obj = text_object(8, 8);
    obj.sections[0].is_text = false;
    assert!(collect_text_patches(&img, &obj).is_empty());
    // no file range
    let mut obj = text_object(8, 8);
    obj.sections[0].file_range = None;
    assert!(collect_text_patches(&img, &obj).is_empty());
    assert_eq!(patch_text(&img, &obj, true, false), img);
}

#[test]
fn sizes_of_pointer_encodings() {
    assert_eq!(eh_pe_fixed_size(0xFF, 8), Some(0));
    assert_eq!(eh_pe_fixed_size(0x00, 8), Some(8));
    assert_eq!(eh_pe_fixed_size(0x10, 4), Some(4));
    assert_eq!(eh_pe_fixed_size(0x02, 8), Some(2));
    assert_eq!(eh_pe_fixed_size(0x0A, 8), Some(2));
    assert_eq!(eh_pe_fixed_size(0x03, 8), Some(4));
    assert_eq!(eh_pe_fixed_size(0x1B, 8), Some(4));
    assert_eq!(eh_pe_fixed_size(0x3B, 8), Some(4));
    assert_eq!(eh_pe_fixed_size(0x04, 8), Some(8));
    assert_eq!(eh_pe_fixed_size(0x0C, 8), Some(8));
    assert_eq!(eh_pe_fixed_size(0x01, 8), None);
    assert_eq!(eh_pe_fixed_size(0x09, 8), None);
    assert_eq!(eh_pe_fixed_size(0x0F, 8), None);
}

fn eh_header(table_enc: u8, entries: &[(i32, i32)]) -> Vec<u8> {
    let mut h = vec![1u8, 0x1B, 0x03, table_enc];
    h.extend_from_slice(&0x100i32.to_le_bytes());
    h.extend_from_slice(&(entries.len() as u32).to_le_bytes());
    for (a, b) in entries {
        h.extend_from_slice(&a.to_le_bytes());
        h.extend_from_slice(&b.to_le_bytes());
    }
    h
}

#[test]
fn the_search_table_is_found_behind_the_header_fields() {
    let h = eh_header(0x3B, &[(1, 2), (3, 4)]);
    assert_eq!(find_eh_table(&h), Some((12, 4)));
    let h = eh_header(0x1B, &[]);
    assert_eq!(find_eh_table(&h), Some((12, 0)));
    // an omitted frame pointer takes no room
    let mut h = vec![1u8, 0xFF, 0x03, 0x3B];
    h.extend_from_slice(&1u32.to_le_bytes());
    h.extend_from_slice(&[0u8; 8]);
    assert_eq!(find_eh_table(&h), Some((8, 2)));
}

#[test]
fn headers_that_are_not_handled() {
    let good = eh_header(0x3B, &[(1, 2)]);
    assert_eq!(find_eh_table(&good), Some((12, 2)));
    let mut h = good.clone();
    h[0] = 2;
    assert_eq!(find_eh_table(&h), None);
    let mut h = good.clone();
    h[3] = 0x1C;
    assert_eq!(find_eh_table(&h), None);
    let mut h = good.clone();
    h[1] = 0x01;
    assert_eq!(find_eh_table(&h), None);
    let mut h = good.clone();
    h[2] = 0x04;
    assert_eq!(find_eh_table(&h), None);
    let mut h = good.clone();
    h[2] = 0x01;
    assert_eq!(find_eh_table(&h), None);
    // the table does not fit
    let mut h = good.clone();
    h[8] = 2;
    assert_eq!(find_eh_table(&h), None);
    let h = good[..19].to_vec();
    assert_eq!(find_eh_table(&h), None);
    assert_eq!(find_eh_table(&[1, 0x1B, 0x03, 0x3B, 0, 0, 0]), None);
    assert_eq!(find_eh_table(&[]), None);
}

#[test]
fn search_table_entries_relative_to_the_section() {
    let mut img = vec![0u8; 4];
    img.extend(eh_header(0x3B, &[(-0x1000, 0x40)]));
    let obj = object(vec![0x40_0000], vec![section(b".eh_frame_hdr", 0x40_3000, 4, 20)]);
    assert_eq!(
        collect_eh_patches(&img, &obj),
        vec![FieldPatch { fo: 16, va: 0x40_3000 }, FieldPatch { fo: 20, va: 0x40_3000 }]
    );
    let out = patch_eh_frame_hdr(&img, &obj, true, false);
    assert_eq!(&out[..16], &img[..16]);
    // 0x403000 - 0x1000 - 0x400000 = 0x2000 ; 0x403000 + 0x40 - 0x400000 = 0x3040
    assert_eq!(&out[16..], &[0, 0x20, 0, 0, 0x40, 0x30, 0, 0]);
    assert_eq!(patch_eh_frame_hdr(&out, &obj, false, false), img);
    let out = patch_eh_frame_hdr(&img, &obj, true, true);
    assert_eq!(&out[16..], &[0, 0, 0x20, 0, 0, 0, 0x30, 0x40]);
    assert_eq!(patch_eh_frame_hdr(&out, &obj, false, true), img);
}

#[test]
fn search_table_entries_relative_to_themselves() {
    let mut img = vec![0u8; 4];
    img.extend(eh_header(0x1B, &[(-0x1000, 0x40)]));
    let obj = object(vec![0x40_0000], vec![section(b".eh_frame_hdr", 0x40_3000, 4, 20)]);
    assert_eq!(
        collect_eh_patches(&img, &obj),
        vec![FieldPatch { fo: 16, va: 0x40_300C }, FieldPatch { fo: 20, va: 0x40_3010 }]
    );
    let out = patch_eh_frame_hdr(&img, &obj, true, false);
    // 0x40300C - 0x1000 - 0x400000 = 0x200C ; 0x403010 + 0x40 - 0x400000 = 0x3050
    assert_eq!(&out[16..], &[0x0C, 0x20, 0, 0, 0x50, 0x30, 0, 0]);
    assert_eq!(patch_eh_frame_hdr(&out, &obj, false, false), img);
}

#[test]
fn other_sections_have_no_search_table() {
    let mut img = vec![0u8; 4];
    img.extend(eh_header(0x3B, &[(1, 2)]));
    let obj = object(vec![], vec![section(b".eh_frame", 0x3000, 4, 20)]);
    assert!(collect_eh_patches(&img, &obj).is_empty());
    let mut obj = object(vec![], vec![section(b".eh_frame_hdr", 0x3000, 4, 20)]);
    obj.sections[0].data_len = Some(19);
    assert!(collect_eh_patches(&img, &obj).is_empty());
    let obj = object(vec![], vec![section(b".eh_frame_hdr", 0x3000, 5, 20)]);
    assert!(collect_eh_patches(&img, &obj).is_empty());
}

#[test]
fn the_code_is_the_first_section_named_text() {
    let obj = object(vec![], vec![]);
    assert_eq!(find_text(&obj), None);
    let obj = object(
        vec![],
        vec![section(b".data", 1, 0, 4), section(b".text", 0x1000, 0, 0x100), section(
            b".text",
            0x2000,
            0,
            0x200,
        )],
    );
    assert_eq!(find_text(&obj), Some((0x1000, 0x100)));
    let obj = object(vec![], vec![section(b".text", 0x1000, 0, 0), section(b".text", 0x2000, 0, 8)]);
    assert_eq!(find_text(&obj), None);
}

#[test]
fn the_upper_bound_of_the_code_is_not_part_of_it() {
    // entry at 0x2000 with value v points to 0x2000 + v
    assert!(entry_points_into_text(0x2000, (-0x1000i32) as u32, 0x1000, 0x100));
    assert!(entry_points_into_text(0x2000, (-0xF01i32) as u32, 0x1000, 0x100));
    assert!(!entry_points_into_text(0x2000, (-0xF00i32) as u32, 0x1000, 0x100));
    assert!(!entry_points_into_text(0x2000, (-0x1001i32) as u32, 0x1000, 0x100));
    assert!(!entry_points_into_text(0x2000, 0, 0x1000, 0x100));
}

fn entries(values: &[i32]) -> Vec<u8> {
    let mut r = Vec::new();
    for v in values {
        r.extend_from_slice(&v.to_le_bytes());
    }
    r
}

fn jump_object(rodata_off: u64, rodata_size: u64) -> ObjectInfo {
    let mut text = section(b".text", 0x40_1000, 0, 0);
    text.size = 0x100;
    text.file_range = None;
    text.data_len = None;
    object(vec![0x40_0000], vec![text, section(b".rodata", 0x40_2000, rodata_off, rodata_size)])
}

fn into_text(entry: u64, target: u64) -> i32 {
    (target as i64 - (0x40_2000 + 4 * entry) as i64) as i32
}

#[test]
fn runs_of_four_entries_into_the_code_are_tables() {
    let mut values = Vec::new();
    for k in 0..4 {
        values.push(into_text(k, 0x40_1010 + k));
    }
    values.push(0);
    for k in 5..8 {
        values.push(into_text(k, 0x40_1000));
    }
    values.push(0x7FFF_FFFF);
    for k in 9..14 {
        values.push(into_text(k, 0x40_10FF));
    }
    let mut img = vec![0u8; 8];
    img.extend(entries(&values));
    img.extend([1, 2, 3]);
    let obj = jump_object(8, 4 * 14 + 3);
    let tables = detect_jump_tables(&img, &obj, 0x40_1000, 0x100);
    assert_eq!(
        tables,
        vec![JumpTable { fo: 8, count: 4 }, JumpTable { fo: 8 + 36, count: 5 }]
    );
}

#[test]
fn an_entry_that_points_to_the_end_of_the_code_ends_the_run() {
    let mut values = Vec::new();
    for k in 0..3 {
        values.push(into_text(k, 0x40_1080));
    }
    values.push(into_text(3, 0x40_1100));
    let img = entries(&values);
    let obj = jump_object(0, 16);
    assert!(detect_jump_tables(&img, &obj, 0x40_1000, 0x100).is_empty());
    let mut values = values;
    values[3] = into_text(3, 0x40_10FF);
    let img = entries(&values);
    assert_eq!(
        detect_jump_tables(&img, &obj, 0x40_1000, 0x100),
        vec![JumpTable { fo: 0, count: 4 }]
    );
}

#[test]
fn only_read_only_data_is_searched() {
    let mut values = Vec::new();
    for k in 0..4 {
        values.push(into_text(k, 0x40_1080));
    }
    let img = entries(&values);
    let mut obj = jump_object(0, 16);
    obj.sections[1].name = b".data".to_vec();
    assert!(detect_jump_tables(&img, &obj, 0x40_1000, 0x100).is_empty());
    obj.sections[1].name = b".data.rel.ro".to_vec();
    assert_eq!(detect_jump_tables(&img, &obj, 0x40_1000, 0x100).len(), 1);
    obj.sections[1].data_len = Some(15);
    assert!(detect_jump_tables(&img, &obj, 0x40_1000, 0x100).is_empty());
}

#[test]
fn the_side_table_holds_count_and_offset_deltas() {
    let tables = vec![
        JumpTable { fo: 0x100, count: 4 },
        JumpTable { fo: 0x180, count: 200 },
        JumpTable { fo: 0x80, count: 5 },
    ];
    let meta = write_tables_meta(&tables);
    let mut expected = vec![3u8, 0x80, 0x02, 4, 0x80, 0x01, 0xC8, 0x01];
    // 0x80 - 0x180 modulo 2^64
    expected.extend([0x80, 0xFE, 0xFF, 0xFF, 0xFF, 0xFF, 0xFF, 0xFF, 0xFF, 0x01, 5]);
    assert_eq!(meta, expected);
    assert_eq!(read_tables_meta(&meta, 0x1000), Ok(tables));
    assert_eq!(write_tables_meta(&vec![]), vec![0u8]);
    assert_eq!(read_tables_meta(&[0], 0), Ok(vec![]));
}

#[test]
fn side_tables_that_cannot_be_read() {
    // no count at all: no table
    assert_eq!(read_tables_meta(&[], 100), Ok(vec![]));
    assert_eq!(read_tables_meta(&[0x80], 100), Ok(vec![]));
    // a table is missing
    assert_eq!(read_tables_meta(&[1], 100), Err(DecodeError::VarintEof));
    assert_eq!(read_tables_meta(&[1, 8], 100), Err(DecodeError::VarintEof));
    assert_eq!(read_tables_meta(&[2, 8, 4], 100), Err(DecodeError::VarintEof));
    let mut meta = vec![1u8];
    meta.extend([0x80u8; 11]);
    assert_eq!(read_tables_meta(&meta, 100), Err(DecodeError::VarintOverflow));
    // a table that leaves the image
    assert_eq!(read_tables_meta(&[1, 8, 4], 24), Ok(vec![JumpTable { fo: 8, count: 4 }]));
    assert_eq!(read_tables_meta(&[1, 8, 4], 23), Err(DecodeError::JumpTableOutOfImage));
    assert_eq!(read_tables_meta(&[1, 101, 0], 100), Err(DecodeError::JumpTableOutOfImage));
    // bytes behind the tables are not read
    assert_eq!(read_tables_meta(&[1, 8, 4, 0xFF], 24), Ok(vec![JumpTable { fo: 8, count: 4 }]));
}

#[test]
fn file_offsets_map_to_the_first_section_that_holds_them() {
    let mut no_range = section(b".bss", 0x9000, 0, 0);
    no_range.file_range = None;
    let obj = object(
        vec![],
        vec![no_range, section(b".a", 0x1000, 0x10, 0x10), section(b".b", 0x5000, 0x18, 0x20)],
    );
    assert_eq!(file_to_va(&obj, 0x10), 0x1000);
    assert_eq!(file_to_va(&obj, 0x1F), 0x100F);
    assert_eq!(file_to_va(&obj, 0x20), 0x5008);
    assert_eq!(file_to_va(&obj, 0x37), 0x501F);
    assert_eq!(file_to_va(&obj, 0x38), 0);
    assert_eq!(file_to_va(&obj, 0), 0);
}

#[test]
fn table_entries_become_targets_relative_to_the_image_base() {
    let mut values = Vec::new();
    for k in 0..4 {
        values.push(into_text(k, 0x40_1010 + 0x10 * k));
    }
    let mut img = vec![0u8; 8];
    img.extend(entries(&values));
    let obj = jump_object(8, 16);
    let tables = vec![JumpTable { fo: 8, count: 4 }];
    assert_eq!(
        collect_table_patches(&obj, &tables, img.len()),
        vec![
            FieldPatch { fo: 8, va: 0x40_2000 },
            FieldPatch { fo: 12, va: 0x40_2004 },
            FieldPatch { fo: 16, va: 0x40_2008 },
            FieldPatch { fo: 20, va: 0x40_200C },
        ]
    );
    let (out, meta, found) = patch_jump_tables(&img, &obj, true, false, &[]).unwrap();
    assert_eq!(found, tables);
    assert_eq!(meta, vec![1, 8, 4]);
    assert_eq!(&out[..8], &[0u8; 8]);
    assert_eq!(
        &out[8..],
        &[0x10, 0x10, 0, 0, 0x20, 0x10, 0, 0, 0x30, 0x10, 0, 0, 0x40, 0x10, 0, 0]
    );
    let (back, meta_back, found_back) = patch_jump_tables(&out, &obj, false, false, &meta).unwrap();
    assert_eq!(back, img);
    assert!(meta_back.is_empty());
    assert_eq!(found_back, tables);
    // big-endian mode
    let (out, meta, _) = patch_jump_tables(&img, &obj, true, true, &[]).unwrap();
    assert_eq!(&out[8..12], &[0, 0, 0x10, 0x10]);
    let (back, _, _) = patch_jump_tables(&out, &obj, false, true, &meta).unwrap();
    assert_eq!(back, img);
}

#[test]
fn without_code_there_are_no_jump_tables() {
    let mut values = Vec::new();
    for k in 0..4 {
        values.push(into_text(k, 0x40_1010));
    }
    let img = entries(&values);
    let obj = object(vec![0x40_0000], vec![section(b".rodata", 0x40_2000, 0, 16)]);
    let (out, meta, tables) = patch_jump_tables(&img, &obj, true, false, &[]).unwrap();
    assert_eq!(out, img);
    assert!(meta.is_empty());
    assert!(tables.is_empty());
    // going back the side table is not even read
    let (out, _, tables) = patch_jump_tables(&img, &obj, false, false, &[1]).unwrap();
    assert_eq!(out, img);
    assert!(tables.is_empty());
}

#[test]
fn a_side_table_that_leaves_the_image_is_a_decode_error() {
    let img = vec![0u8; 16];
    let obj = jump_object(0, 16);
    assert_eq!(
        patch_jump_tables(&img, &obj, false, false, &[1, 4, 4]),
        Err(DecodeError::JumpTableOutOfImage)
    );
    assert_eq!(
        patch_jump_tables(&img, &obj, false, false, &[1, 4]),
        Err(DecodeError::VarintEof)
    );
}

#[test]
fn an_entry_that_was_held_back_does_not_come_back() {
    // relative to a section above 2^33 the addresses do not fit 32 bits
    let mut img = vec![0u8; 4];
    img.extend(eh_header(0x3B, &[(0x10, 0x40)]));
    let obj = object(vec![], vec![section(b".eh_frame_hdr", 0x2_0000_1000, 4, 20)]);
    let out = patch_eh_frame_hdr(&img, &obj, true, false);
    assert_eq!(out, img);
    // the way back does not know that the entries were held back
    let back = patch_eh_frame_hdr(&out, &obj, false, false);
    assert_eq!(&back[..16], &img[..16]);
    // 0x10 - 0x2_0000_1000 and 0x40 - 0x2_0000_1000, modulo 2^32
    assert_eq!(&back[16..], &[0x10, 0xF0, 0xFF, 0xFF, 0x40, 0xF0, 0xFF, 0xFF]);
}

#[test]
fn ranges_of_the_sections_that_the_stages_read() {
    let mut text = section(b".text", 0x1000, 8, 16);
    assert_eq!(section_code_range(&text, 100), None);
    text.is_text = true;
    assert_eq!(section_code_range(&text, 100), Some((8, 16)));
    assert_eq!(section_code_range(&text, 24), Some((8, 16)));
    assert_eq!(section_code_range(&text, 23), None);
    let hdr = section(b".eh_frame_hdr", 0x1000, 8, 16);
    assert_eq!(section_eh_range(&hdr, 24), Some((8, 16)));
    assert_eq!(section_eh_range(&hdr, 23), None);
    assert_eq!(section_eh_range(&text, 100), None);
    let rodata = section(b".rodata", 0x1000, 8, 16);
    assert_eq!(section_table_range(&rodata, 24), Some((8, 16)));
    assert_eq!(section_table_range(&rodata, 23), None);
    assert_eq!(section_table_range(&section(b".rodata.str", 0, 8, 16), 24), None);
    assert_eq!(section_table_range(&section(b".data.rel.ro", 0, 8, 16), 24), Some((8, 16)));
}

fn sample(len: usize, seed: u64) -> Vec<u8> {
    let mut state = seed.wrapping_mul(0x9E37_79B9_7F4A_7C15).wrapping_add(1);
    let mut out = Vec::with_capacity(len);
    for _ in 0..len {
        state ^= state << 13;
        state ^= state >> 7;
        state ^= state << 17;
        out.push((state >> 24) as u8);
    }
    out
}

/// The fields of a code buffer as one decoder finds them that runs over the
/// whole buffer.
fn streamed_patches(img: &[u8], off: usize, len: usize, va: u64) -> Vec<FieldPatch> {
    let code = &img[off..off + len];
    let mut patches = Vec::new();
    let mut decoder = Decoder::with_ip(64, code, va, DecoderOptions::NONE);
    while decoder.can_decode() {
        let inst = decoder.decode();
        let at = inst.ip().wrapping_sub(va) as usize;
        if at + inst.len() > code.len() {
            break;
        }
        let next = inst.ip().wrapping_add(inst.len() as u64);
        let co = decoder.get_constant_offsets(&inst);
        if inst.is_ip_rel_memory_operand() && co.has_displacement() && co.displacement_size() == 4 {
            let fo = off + at + co.displacement_offset();
            if fo + 4 <= img.len() {
                patches.push(FieldPatch { fo, va: next });
            }
        }
        if (inst.is_call_near() || inst.is_jmp_near() || inst.is_jcc_short_or_near())
            && co.has_immediate()
            && co.immediate_size() == 4
        {
            let fo = off + at + co.immediate_offset();
            if fo + 4 <= img.len() {
                patches.push(FieldPatch { fo, va: next });
            }
        }
    }
    patches
}

#[test]
fn decoding_instruction_by_instruction_agrees_with_one_decoder_over_the_code() {
    let mut found = 0usize;
    for seed in 0..200u64 {
        let mut img = sample(300, seed);
        // sprinkle calls, jumps and rip-relative loads among the arbitrary bytes
        for k in 0..10usize {
            let at = 20 + 27 * k;
            match (seed as usize + k) % 4 {
                0 => img[at] = 0xE8,
                1 => img[at] = 0xE9,
                2 => {
                    img[at] = 0x48;
                    img[at + 1] = 0x8B;
                    img[at + 2] = 0x05;
                }
                _ => {
                    img[at] = 0x0F;
                    img[at + 1] = 0x84;
                }
            }
        }
        let va = 0x40_0000 + 0x1000 * seed;
        let mut patches = Vec::new();
        push_code_patches(&img, 10, 280, va, &mut patches);
        assert_eq!(patches, streamed_patches(&img, 10, 280, va), "seed {}", seed);
        found += patches.len();
    }
    assert!(found > 200);
}

#[test]
fn decoding_near_the_end_of_the_address_space_wraps() {
    let img = vec![0xE8, 0, 0, 0, 0, 0xE8, 0, 0, 0, 0];
    let mut patches = Vec::new();
    push_code_patches(&img, 0, 10, u64::MAX - 6, &mut patches);
    assert_eq!(
        patches,
        vec![FieldPatch { fo: 1, va: u64::MAX - 1 }, FieldPatch { fo: 6, va: 3 }]
    );
}
