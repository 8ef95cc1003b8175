use fesh_comp::elf_tables::{transform_table, transform_tables};
use fesh_comp::image::{section_range, ObjectInfo, SectionInfo};
use fesh_comp::names::{
    matches_at, name_contains, name_is, name_starts_with, pointer_name, section_category,
    table_kind,
};
use fesh_comp::tables::{
    transform_dynamic16, transform_rel16, transform_rela24, transform_relr8, transform_sym24,
    TableKind,
};

fn rela(off: u64, sym: u32, typ: u32, addend: i64) -> Vec<u8> {
    let mut r = Vec::new();
    r.extend_from_slice(&off.to_le_bytes());
    r.extend_from_slice(&(((sym as u64) << 32) | typ as u64).to_le_bytes());
    r.extend_from_slice(&addend.to_le_bytes());
    r
}

fn rela_raw(off: u64, sym: u32, typ: u32, addend: u64) -> Vec<u8> {
    let mut r = Vec::new();
    r.extend_from_slice(&off.to_le_bytes());
    r.extend_from_slice(&(((sym as u64) << 32) | typ as u64).to_le_bytes());
    r.extend_from_slice(&addend.to_le_bytes());
    r
}

fn rel(off: u64, sym: u32, typ: u32) -> Vec<u8> {
    let mut r = Vec::new();
    r.extend_from_slice(&off.to_le_bytes());
    r.extend_from_slice(&(((sym as u64) << 32) | typ as u64).to_le_bytes());
    r
}

fn sym(name: u32, mid: [u8; 4], value: u64, size: u64) -> Vec<u8> {
    let mut r = Vec::new();
    r.extend_from_slice(&name.to_le_bytes());
    r.extend_from_slice(&mid);
    r.extend_from_slice(&value.to_le_bytes());
    r.extend_from_slice(&size.to_le_bytes());
    r
}

fn words(values: &[u64]) -> Vec<u8> {
    let mut r = Vec::new();
    for v in values {
        r.extend_from_slice(&v.to_le_bytes());
    }
    r
}

fn sample(len: usize, seed: u64) -> Vec<u8> {
    let mut state = seed.wrapping_mul(0x9E37_79B9_7F4A_7C15).wrapping_add(1);
    let mut out = Vec::with_capacity(len);
    for _ in 0..len {
        state ^= state << 13;
        state ^= state >> 7;
        state ^= state << 17;
        out.push((state >> 24) as u8);
    }
    out
}

#[test]
fn rela_single_record_keeps_offset_and_symbol_and_zigzags_the_addend() {
    let mut buf = rela(0x1000, 5, 7, -3);
    transform_rela24(&mut buf, true);
    assert_eq!(buf, rela_raw(0x1000, 5, 7, 5));
    transform_rela24(&mut buf, false);
    assert_eq!(buf, rela(0x1000, 5, 7, -3));
}

#[test]
fn rela_records_are_deltas_of_the_record_before() {
    let mut buf = Vec::new();
    buf.extend(rela(0x1000, 5, 7, 16));
    buf.extend(rela(0x1018, 3, 7, 8));
    buf.extend(rela(0x1010, 3, 8, 8));
    let original = buf.clone();
    transform_rela24(&mut buf, true);
    let mut expected = Vec::new();
    expected.extend(rela_raw(0x1000, 5, 7, 32));
    expected.extend(rela_raw(0x18, 0xFFFF_FFFE, 7, 15));
    expected.extend(rela_raw(0xFFFF_FFFF_FFFF_FFF8, 0, 8, 0));
    assert_eq!(buf, expected);
    transform_rela24(&mut buf, false);
    assert_eq!(buf, original);
}

#[test]
fn rel_records_are_deltas_of_the_record_before() {
    let mut buf = Vec::new();
    buf.extend(rel(0x2000, 1, 8));
    buf.extend(rel(0x2008, 2, 8));
    let original = buf.clone();
    transform_rel16(&mut buf, true);
    let mut expected = Vec::new();
    expected.extend(rel(0x2000, 1, 8));
    expected.extend(rel(8, 1, 8));
    assert_eq!(buf, expected);
    transform_rel16(&mut buf, false);
    assert_eq!(buf, original);
}

#[test]
fn sym_records_keep_the_bytes_between_name_and_value() {
    let mut buf = Vec::new();
    buf.extend(sym(10, [1, 2, 3, 4], 0x40_0000, 32));
    buf.extend(sym(25, [5, 6, 7, 8], 0x40_0100, 16));
    let original = buf.clone();
    transform_sym24(&mut buf, true);
    let mut expected = Vec::new();
    expected.extend(sym(10, [1, 2, 3, 4], 0x40_0000, 32));
    expected.extend(sym(15, [5, 6, 7, 8], 0x100, 0xFFFF_FFFF_FFFF_FFF0));
    assert_eq!(buf, expected);
    transform_sym24(&mut buf, false);
    assert_eq!(buf, original);
}

#[test]
fn relr_addresses_are_deltas_and_bitmaps_stay() {
    let mut buf = words(&[0x1000, 0x0000_0000_0000_00FF, 0x1800, 0x3, 0x1802]);
    let original = buf.clone();
    transform_relr8(&mut buf, true);
    assert_eq!(buf, words(&[0x1000, 0xFF, 0x800, 0x3, 0x2]));
    transform_relr8(&mut buf, false);
    assert_eq!(buf, original);
}

#[test]
fn relr_first_entry_may_be_a_bitmap() {
    let mut buf = words(&[0x11, 0x2000, 0x2010]);
    let original = buf.clone();
    transform_relr8(&mut buf, true);
    assert_eq!(buf, words(&[0x11, 0x2000, 0x10]));
    transform_relr8(&mut buf, false);
    assert_eq!(buf, original);
}

#[test]
fn dynamic_records_are_deltas_of_tag_and_value() {
    let mut buf = words(&[1, 0x100, 12, 0x4000, 5, 0x3000]);
    let original = buf.clone();
    transform_dynamic16(&mut buf, true);
    assert_eq!(buf, words(&[1, 0x100, 11, 0x3F00, 0xFFFF_FFFF_FFFF_FFF9, 0xFFFF_FFFF_FFFF_F000]));
    transform_dynamic16(&mut buf, false);
    assert_eq!(buf, original);
}

#[test]
fn tables_that_are_not_made_of_whole_records_are_left_alone() {
    for forward in [true, false] {
        let data = sample(25, 1);
        let mut buf = data.clone();
        transform_rela24(&mut buf, forward);
        assert_eq!(buf, data);
        let mut buf = data.clone();
        transform_sym24(&mut buf, forward);
        assert_eq!(buf, data);
        let data = sample(17, 2);
        let mut buf = data.clone();
        transform_rel16(&mut buf, forward);
        assert_eq!(buf, data);
        let mut buf = data.clone();
        transform_dynamic16(&mut buf, forward);
        assert_eq!(buf, data);
        let data = sample(9, 3);
        let mut buf = data.clone();
        transform_relr8(&mut buf, forward);
        assert_eq!(buf, data);
    }
}

#[test]
fn empty_tables_stay_empty() {
    for kind in [TableKind::Rela, TableKind::Rel, TableKind::Sym, TableKind::Relr,
        TableKind::Dynamic] {
        let mut buf: Vec<u8> = Vec::new();
        transform_table(&mut buf, kind, true);
        assert!(buf.is_empty());
    }
}

#[test]
fn back_undoes_forward_on_arbitrary_tables() {
    for (kind, size) in [(TableKind::Rela, 24usize), (TableKind::Rel, 16), (TableKind::Sym, 24),
        (TableKind::Relr, 8), (TableKind::Dynamic, 16)] {
        for records in 0..12usize {
            let data = sample(records * size, (size * 100 + records) as u64);
            let mut buf = data.clone();
            transform_table(&mut buf, kind, true);
            assert_eq!(buf.len(), data.len());
            transform_table(&mut buf, kind, false);
            assert_eq!(buf, data);
        }
    }
}

#[test]
fn name_tests_on_bytes() {
    assert!(name_is(b".text", b".text"));
    assert!(!name_is(b".text", b".tex"));
    assert!(!name_is(b".tex", b".text"));
    assert!(name_is(b"", b""));
    assert!(name_starts_with(b".rela.dyn", b".rela"));
    assert!(name_starts_with(b".rela", b".rela"));
    assert!(!name_starts_with(b".rel", b".rela"));
    assert!(name_starts_with(b"abc", b""));
    assert!(name_contains(b".rodata.cst16", b"cst16"));
    assert!(name_contains(b".eh_frame_hdr", b"eh_frame"));
    assert!(!name_contains(b".eh_fram", b"eh_frame"));
    assert!(name_contains(b"abc", b""));
    assert!(name_contains(b"", b""));
    assert!(!name_contains(b"", b"a"));
    assert!(name_contains(b"aab", b"ab"));
}

#[test]
fn table_kinds_by_name() {
    assert_eq!(table_kind(b".rela.dyn"), Some(TableKind::Rela));
    assert_eq!(table_kind(b".rela.plt"), Some(TableKind::Rela));
    assert_eq!(table_kind(b".rel.dyn"), Some(TableKind::Rel));
    assert_eq!(table_kind(b".rel"), Some(TableKind::Rel));
    assert_eq!(table_kind(b".relr.dyn"), Some(TableKind::Relr));
    assert_eq!(table_kind(b".dynsym"), Some(TableKind::Sym));
    assert_eq!(table_kind(b".symtab"), Some(TableKind::Sym));
    assert_eq!(table_kind(b".dynamic"), Some(TableKind::Dynamic));
    assert_eq!(table_kind(b".dynamic2"), None);
    assert_eq!(table_kind(b".text"), None);
    assert_eq!(table_kind(b""), None);
}

fn section(name: &[u8], is_text: bool) -> SectionInfo {
    SectionInfo {
        name: name.to_vec(),
        is_text,
        address: 0,
        size: 0,
        file_range: None,
        data_len: None,
    }
}

#[test]
fn categories_by_kind_and_name_first_rule_wins() {
    assert_eq!(section_category(&section(b".text", true)), 1);
    assert_eq!(section_category(&section(b".strtab", true)), 1);
    assert_eq!(section_category(&section(b".strtab", false)), 2);
    assert_eq!(section_category(&section(b".dynstr", false)), 2);
    assert_eq!(section_category(&section(b".rodata.str1.1", false)), 2);
    assert_eq!(section_category(&section(b".eh_frame", false)), 13);
    assert_eq!(section_category(&section(b".eh_frame_hdr", false)), 13);
    assert_eq!(section_category(&section(b".gcc_except_table", false)), 13);
    assert_eq!(section_category(&section(b".relr.dyn", false)), 6);
    assert_eq!(section_category(&section(b".rela.dyn", false)), 11);
    assert_eq!(section_category(&section(b".symtab", false)), 12);
    assert_eq!(section_category(&section(b".dynsym", false)), 12);
    assert_eq!(section_category(&section(b".rel.plt", false)), 8);
    assert_eq!(section_category(&section(b".dynamic", false)), 9);
    assert_eq!(section_category(&section(b".rodata.cst16", false)), 7);
    assert_eq!(section_category(&section(b".gnu.version", false)), 3);
    assert_eq!(section_category(&section(b".got", false)), 5);
    assert_eq!(section_category(&section(b".got.plt", false)), 5);
    assert_eq!(section_category(&section(b".data.rel.ro", false)), 5);
    assert_eq!(section_category(&section(b".init_array", false)), 5);
    assert_eq!(section_category(&section(b".fini_array", false)), 5);
    assert_eq!(section_category(&section(b".plt.got", false)), 5);
    assert_eq!(section_category(&section(b".preinit_array", false)), 5);
    assert_eq!(section_category(&section(b".rodata.cst8", false)), 5);
    assert_eq!(section_category(&section(b".gnu.hash", false)), 4);
    assert_eq!(section_category(&section(b".rodata.cst4", false)), 4);
    assert_eq!(section_category(&section(b".data", false)), 0);
    assert_eq!(section_category(&section(b"", false)), 0);
    assert_eq!(section_category(&section(b".rela.strange", false)), 2);
    assert!(pointer_name(b".got"));
    assert!(!pointer_name(b".go"));
}

fn table_object(name: &[u8], off: u64, size: u64) -> ObjectInfo {
    ObjectInfo {
        is_x86_64: true,
        is_little_endian: true,
        is_64: true,
        segments: vec![],
        sections: vec![SectionInfo {
            name: name.to_vec(),
            is_text: false,
            address: 0,
            size,
            file_range: Some((off, size)),
            data_len: Some(size),
        }],
    }
}

#[test]
fn only_the_bytes_of_the_table_section_change() {
    let mut image = vec![0xABu8; 8];
    image.extend(words(&[1, 0x100, 12, 0x4000]));
    image.extend(vec![0xCDu8; 5]);
    let obj = table_object(b".dynamic", 8, 32);
    let out = transform_tables(&image, &obj, true);
    let mut expected = vec![0xABu8; 8];
    expected.extend(words(&[1, 0x100, 11, 0x3F00]));
    expected.extend(vec![0xCDu8; 5]);
    assert_eq!(out, expected);
    assert_eq!(transform_tables(&out, &obj, false), image);
}

#[test]
fn a_table_section_that_leaves_the_image_is_skipped() {
    let image = words(&[1, 0x100, 12, 0x4000]);
    let obj = table_object(b".dynamic", 16, 32);
    assert_eq!(transform_tables(&image, &obj, true), image);
    let obj = table_object(b".dynamic", u64::MAX, 16);
    assert_eq!(transform_tables(&image, &obj, true), image);
}

#[test]
fn a_section_without_file_range_or_of_no_table_name_is_skipped() {
    let image = words(&[1, 0x100, 12, 0x4000]);
    let mut obj = table_object(b".dynamic", 0, 32);
    obj.sections[0].file_range = None;
    assert_eq!(transform_tables(&image, &obj, true), image);
    let obj = table_object(b".data", 0, 32);
    assert_eq!(transform_tables(&image, &obj, true), image);
}

#[test]
fn file_ranges_within_the_image() {
    let mut s = section(b".data", false);
    assert_eq!(section_range(&s, 100), None);
    s.file_range = Some((10, 90));
    assert_eq!(section_range(&s, 100), Some((10, 90)));
    assert_eq!(section_range(&s, 99), None);
    s.file_range = Some((100, 0));
    assert_eq!(section_range(&s, 100), Some((100, 0)));
    s.file_range = Some((101, 0));
    assert_eq!(section_range(&s, 100), None);
    s.file_range = Some((u64::MAX, u64::MAX));
    assert_eq!(section_range(&s, 100), None);
    s.file_range = Some((0, 0));
    assert_eq!(section_range(&s, 0), Some((0, 0)));
}

#[test]
fn a_needle_is_matched_at_a_place() {
    assert!(matches_at(b".rela.dyn", b"rela", 1));
    assert!(!matches_at(b".rela.dyn", b"rela", 0));
    assert!(matches_at(b".rela.dyn", b"", 9));
    assert!(!matches_at(b".rela.dyn", b"", 10));
    assert!(!matches_at(b".rela.dyn", b"dyn.", 6));
    assert!(matches_at(b".rela.dyn", b"dyn", 6));
    assert!(!matches_at(b"ab", b"abc", 0));
}
