use fesh_comp::container::parse_container;
use fesh_comp::eh::process_eh_frame_hdr;
use fesh_comp::elf_tables::process_elf_tables;
use fesh_comp::image::{image_base, load_object};
use fesh_comp::jump::{process_jump_tables, JumpTable};
use fesh_comp::pipeline::{compress, compress_with_mode, decompress};
use fesh_comp::router::split_streams;
use fesh_comp::text::process_binary;

const PROGBITS: u32 = 1;
const SYMTAB: u32 = 2;
const RELA: u32 = 4;
const DYNAMIC: u32 = 6;
const NOBITS: u32 = 8;
const ALLOC: u64 = 2;
const EXEC: u64 = 4;

struct Sec {
    name: &'static str,
    kind: u32,
    flags: u64,
    addr: u64,
    data: Vec<u8>,
}

fn sec(name: &'static str, kind: u32, flags: u64, addr: u64, data: Vec<u8>) -> Sec {
    Sec { name, kind, flags, addr, data }
}

struct Elf {
    bytes: Vec<u8>,
    offsets: Vec<usize>,
}

fn put16(out: &mut Vec<u8>, v: u16) {
    out.extend_from_slice(&v.to_le_bytes());
}

fn put32(out: &mut Vec<u8>, v: u32) {
    out.extend_from_slice(&v.to_le_bytes());
}

fn put64(out: &mut Vec<u8>, v: u64) {
    out.extend_from_slice(&v.to_le_bytes());
}

/// A 64-bit ELF file with one loadable segment at `base` and the given
/// sections; `machine` and `class` and `endian` are written as given.
fn build(secs: &[Sec], base: u64, machine: u16, class: u8) -> Elf {
    let mut names = vec![0u8];
    let mut name_at = Vec::new();
    for s in secs {
        name_at.push(names.len() as u32);
        names.extend_from_slice(s.name.as_bytes());
        names.push(0);
    }
    let shstr_at = names.len() as u32;
    names.extend_from_slice(b".shstrtab\0");

    let mut out = vec![0x7F, b'E', b'L', b'F', class, 1, 1, 0];
    out.extend([0u8; 8]);
    put16(&mut out, 2);
    put16(&mut out, machine);
    put32(&mut out, 1);
    put64(&mut out, base);
    put64(&mut out, 64);
    let shoff_at = out.len();
    put64(&mut out, 0);
    put32(&mut out, 0);
    put16(&mut out, 64);
    put16(&mut out, 56);
    put16(&mut out, 1);
    put16(&mut out, 64);
    put16(&mut out, (secs.len() + 2) as u16);
    put16(&mut out, (secs.len() + 1) as u16);
    assert_eq!(out.len(), 64);
    // one PT_LOAD
    put32(&mut out, 1);
    put32(&mut out, 5);
    put64(&mut out, 0);
    put64(&mut out, base);
    put64(&mut out, base);
    put64(&mut out, 0x1000);
    put64(&mut out, 0x1000);
    put64(&mut out, 0x1000);
    assert_eq!(out.len(), 120);

    let mut offsets = Vec::new();
    for s in secs {
        while out.len() % 8 != 0 {
            out.push(0);
        }
        offsets.push(out.len());
        if s.kind != NOBITS {
            out.extend_from_slice(&s.data);
        }
    }
    while out.len() % 8 != 0 {
        out.push(0);
    }
    let shstr_off = out.len();
    out.extend_from_slice(&names);
    while out.len() % 8 != 0 {
        out.push(0);
    }
    let shoff = out.len() as u64;
    out[shoff_at..shoff_at + 8].copy_from_slice(&shoff.to_le_bytes());
    out.extend([0u8; 64]);
    for (i, s) in secs.iter().enumerate() {
        put32(&mut out, name_at[i]);
        put32(&mut out, s.kind);
        put64(&mut out, s.flags);
        put64(&mut out, s.addr);
        put64(&mut out, offsets[i] as u64);
        put64(&mut out, s.data.len() as u64);
        put32(&mut out, 0);
        put32(&mut out, 0);
        put64(&mut out, 1);
        put64(&mut out, 0);
    }
    put32(&mut out, shstr_at);
    put32(&mut out, 3);
    put64(&mut out, 0);
    put64(&mut out, 0);
    put64(&mut out, shstr_off as u64);
    put64(&mut out, names.len() as u64);
    put32(&mut out, 0);
    put32(&mut out, 0);
    put64(&mut out, 1);
    put64(&mut out, 0);
    Elf { bytes: out, offsets }
}

fn elf(secs: &[Sec]) -> Elf {
    build(secs, 0x40_0000, 0x3E, 2)
}

fn rela(off: u64, sym: u32, typ: u32, addend: i64) -> Vec<u8> {
    let mut r = Vec::new();
    r.extend_from_slice(&off.to_le_bytes());
    r.extend_from_slice(&(((sym as u64) << 32) | typ as u64).to_le_bytes());
    r.extend_from_slice(&addend.to_le_bytes());
    r
}

fn entries(values: &[i32]) -> Vec<u8> {
    let mut r = Vec::new();
    for v in values {
        r.extend_from_slice(&v.to_le_bytes());
    }
    r
}

fn code() -> Vec<u8> {
    let mut c = vec![
        0xE8, 0x20, 0, 0, 0, // call
        0x48, 0x8B, 0x05, 0x10, 0, 0, 0, // mov rax, [rip+0x10]
        0x0F, 0x84, 8, 0, 0, 0, // je
        0xC3, // ret
    ];
    while c.len() < 0x100 {
        c.push(0x90);
    }
    c
}

#[test]
fn the_object_parser_reports_sections_and_segments() {
    let file = elf(&[
        sec(".text", PROGBITS, ALLOC | EXEC, 0x40_1000, code()),
        sec(".rodata", PROGBITS, ALLOC, 0x40_2000, vec![1, 2, 3, 4, 5]),
        sec(".bss", NOBITS, ALLOC | 1, 0x40_3000, vec![0; 32]),
    ]);
    let obj = load_object(&file.bytes).unwrap();
    assert!(obj.is_x86_64 && obj.is_little_endian && obj.is_64);
    assert_eq!(obj.segments, vec![0x40_0000]);
    assert_eq!(image_base(&obj), 0x40_0000);
    let names: Vec<&[u8]> = obj.sections.iter().map(|s| s.name.as_slice()).collect();
    assert_eq!(names, vec![&b".text"[..], b".rodata", b".bss", b".shstrtab"]);
    let text = &obj.sections[0];
    assert!(text.is_text);
    assert_eq!(text.address, 0x40_1000);
    assert_eq!(text.size, 0x100);
    assert_eq!(text.file_range, Some((file.offsets[0] as u64, 0x100)));
    assert_eq!(text.data_len, Some(0x100));
    let rodata = &obj.sections[1];
    assert!(!rodata.is_text);
    assert_eq!(rodata.file_range, Some((file.offsets[1] as u64, 5)));
    assert_eq!(rodata.data_len, Some(5));
    let bss = &obj.sections[2];
    assert_eq!(bss.size, 32);
    assert_eq!(bss.file_range, None);
}

#[test]
fn files_of_another_kind_are_not_transformed() {
    assert!(load_object(&[]).is_none());
    assert!(load_object(&[0xFF; 16]).is_none());
    assert!(load_object(b"\x7FELF").is_none());
    let secs = [sec(".text", PROGBITS, ALLOC | EXEC, 0x40_1000, code())];
    // AArch64
    let other = build(&secs, 0x40_0000, 0xB7, 2);
    assert!(load_object(&other.bytes).is_none());
    assert_eq!(process_binary(&other.bytes, true, false), other.bytes);
    assert_eq!(process_eh_frame_hdr(&other.bytes, true, false), other.bytes);
    assert_eq!(process_elf_tables(&other.bytes, true), other.bytes);
    let (out, meta, tables) = process_jump_tables(&other.bytes, true, false, None).unwrap();
    assert_eq!(out, other.bytes);
    assert!(meta.is_empty() && tables.is_empty());
    let (runs, streams) = split_streams(&other.bytes, &[]);
    assert_eq!(streams[0], other.bytes);
    assert_eq!(runs.len(), 2);
    assert_eq!(decompress(&compress(&other.bytes)), Ok(other.bytes));
}

#[test]
fn code_fields_of_an_object_file_are_normalized() {
    let file = elf(&[sec(".text", PROGBITS, ALLOC | EXEC, 0x40_1000, code())]);
    let at = file.offsets[0];
    let out = process_binary(&file.bytes, true, false);
    assert_eq!(out.len(), file.bytes.len());
    // call: 0x20 + 0x401005 - 0x400000
    assert_eq!(&out[at..at + 5], &[0xE8, 0x25, 0x10, 0, 0]);
    // mov: 0x10 + 0x40100C - 0x400000
    assert_eq!(&out[at + 5..at + 12], &[0x48, 0x8B, 0x05, 0x1C, 0x10, 0, 0]);
    // je: 8 + 0x401012 - 0x400000
    assert_eq!(&out[at + 12..at + 18], &[0x0F, 0x84, 0x1A, 0x10, 0, 0]);
    assert_eq!(&out[..at], &file.bytes[..at]);
    assert_eq!(&out[at + 18..], &file.bytes[at + 18..]);
    assert_eq!(process_binary(&out, false, false), file.bytes);
    let swapped = process_binary(&file.bytes, true, true);
    assert_eq!(&swapped[at..at + 5], &[0xE8, 0, 0, 0x10, 0x25]);
    assert_eq!(process_binary(&swapped, false, true), file.bytes);
}

#[test]
fn a_file_with_an_empty_text_section_round_trips_unchanged() {
    let file = elf(&[sec(".text", PROGBITS, ALLOC | EXEC, 0x40_1000, vec![])]);
    assert_eq!(process_binary(&file.bytes, true, false), file.bytes);
    assert_eq!(process_eh_frame_hdr(&file.bytes, true, false), file.bytes);
    assert_eq!(process_elf_tables(&file.bytes, true), file.bytes);
    let (out, meta, tables) = process_jump_tables(&file.bytes, true, false, None).unwrap();
    assert_eq!(out, file.bytes);
    assert!(meta.is_empty() && tables.is_empty());
    let packed = compress(&file.bytes);
    assert!(parse_container(&packed).unwrap().jt_meta.is_empty());
    assert_eq!(decompress(&packed), Ok(file.bytes));
}

#[test]
fn a_single_rela_record_keeps_offset_and_symbol_and_zigzags_the_addend() {
    let file = elf(&[
        sec(".text", PROGBITS, ALLOC | EXEC, 0x40_1000, code()),
        sec(".rela.dyn", RELA, ALLOC, 0x40_2000, rela(0x40_3000, 5, 8, -3)),
    ]);
    let at = file.offsets[1];
    let out = process_elf_tables(&file.bytes, true);
    assert_eq!(&out[at..at + 8], &0x40_3000u64.to_le_bytes());
    assert_eq!(&out[at + 8..at + 16], &((5u64 << 32) | 8).to_le_bytes());
    assert_eq!(&out[at + 16..at + 24], &5u64.to_le_bytes());
    assert_eq!(&out[..at], &file.bytes[..at]);
    assert_eq!(&out[at + 24..], &file.bytes[at + 24..]);
    assert_eq!(process_elf_tables(&out, false), file.bytes);
    let (_, streams) = split_streams(&out, &[]);
    assert_eq!(streams[11].len(), 24);
    assert_eq!(streams[1].len(), 0x100);
    assert_eq!(decompress(&compress(&file.bytes)), Ok(file.bytes));
}

#[test]
fn tables_that_are_not_whole_records_are_skipped_and_round_trip() {
    let mut table = rela(0x40_3000, 5, 8, -3);
    table.push(0xAA);
    let file = elf(&[
        sec(".rela.dyn", PROGBITS, ALLOC, 0x40_2000, table),
        sec(".dynamic", PROGBITS, ALLOC, 0x40_2100, vec![7u8; 17]),
        sec(".symtab", PROGBITS, 0, 0, vec![9u8; 23]),
    ]);
    assert!(load_object(&file.bytes).is_some());
    assert_eq!(process_elf_tables(&file.bytes, true), file.bytes);
    let (_, streams) = split_streams(&file.bytes, &[]);
    assert_eq!(streams[11].len(), 25);
    assert_eq!(streams[9].len(), 17);
    assert_eq!(streams[12].len(), 23);
    assert_eq!(decompress(&compress(&file.bytes)), Ok(file.bytes));
}

fn table_file(values: &[i32]) -> Elf {
    elf(&[
        sec(".text", PROGBITS, ALLOC | EXEC, 0x40_1000, code()),
        sec(".rodata", PROGBITS, ALLOC, 0x40_2000, entries(values)),
    ])
}

fn into_text(entry: u64, target: u64) -> i32 {
    (target as i64 - (0x40_2000 + 4 * entry) as i64) as i32
}

#[test]
fn four_entries_into_the_code_are_a_jump_table() {
    let values: Vec<i32> = (0..4).map(|k| into_text(k, 0x40_1010 + 0x10 * k)).collect();
    let file = table_file(&values);
    let at = file.offsets[1];
    let (out, meta, tables) = process_jump_tables(&file.bytes, true, false, None).unwrap();
    assert_eq!(tables, vec![JumpTable { fo: at, count: 4 }]);
    let mut expected_meta = vec![1u8];
    let mut fo = at as u64;
    loop {
        let b = (fo & 0x7F) as u8;
        fo >>= 7;
        if fo != 0 {
            expected_meta.push(b | 0x80);
        } else {
            expected_meta.push(b);
            break;
        }
    }
    expected_meta.push(4);
    assert_eq!(meta, expected_meta);
    assert_eq!(
        &out[at..at + 16],
        &[0x10, 0x10, 0, 0, 0x20, 0x10, 0, 0, 0x30, 0x10, 0, 0, 0x40, 0x10, 0, 0]
    );
    let (runs, streams) = split_streams(&out, &tables);
    assert_eq!(streams[14], out[at..at + 16].to_vec());
    assert!(!runs.is_empty());
    let (back, _, again) = process_jump_tables(&out, false, false, Some(&meta)).unwrap();
    assert_eq!(back, file.bytes);
    assert_eq!(again, tables);

    let packed = compress_with_mode(&file.bytes, false);
    let parts = parse_container(&packed).unwrap();
    assert_eq!(parts.jt_meta, expected_meta);
    assert!(!parts.blocks[14].is_empty());
    assert_eq!(decompress(&packed), Ok(file.bytes.clone()));
    let packed = compress_with_mode(&file.bytes, true);
    assert_eq!(decompress(&packed), Ok(file.bytes.clone()));
    assert_eq!(decompress(&compress(&file.bytes)), Ok(file.bytes));
}

#[test]
fn an_entry_at_the_end_of_the_code_is_outside_the_table() {
    let mut values: Vec<i32> = (0..3).map(|k| into_text(k, 0x40_1010)).collect();
    values.push(into_text(3, 0x40_1100));
    let file = table_file(&values);
    let (out, meta, tables) = process_jump_tables(&file.bytes, true, false, None).unwrap();
    assert!(tables.is_empty());
    assert_eq!(meta, vec![0]);
    assert_eq!(out, file.bytes);
    assert_eq!(decompress(&compress(&file.bytes)), Ok(file.bytes));
}

#[test]
fn a_file_without_text_has_no_jump_tables() {
    let values: Vec<i32> = (0..4).map(|k| into_text(k, 0x40_1010)).collect();
    let file = elf(&[sec(".rodata", PROGBITS, ALLOC, 0x40_2000, entries(&values))]);
    let (out, meta, tables) = process_jump_tables(&file.bytes, true, false, None).unwrap();
    assert_eq!(out, file.bytes);
    assert!(meta.is_empty());
    assert!(tables.is_empty());
    assert_eq!(decompress(&compress(&file.bytes)), Ok(file.bytes));
}

#[test]
fn the_exception_frame_header_of_an_object_file_is_rebased() {
    let mut hdr = vec![1u8, 0x1B, 0x03, 0x3B];
    hdr.extend_from_slice(&0x100i32.to_le_bytes());
    hdr.extend_from_slice(&2u32.to_le_bytes());
    hdr.extend(entries(&[-0x1000, 0x40, -0xF00, 0x80]));
    let file = elf(&[
        sec(".text", PROGBITS, ALLOC | EXEC, 0x40_1000, code()),
        sec(".eh_frame_hdr", PROGBITS, ALLOC, 0x40_2000, hdr),
    ]);
    let at = file.offsets[1];
    let out = process_eh_frame_hdr(&file.bytes, true, false);
    assert_eq!(&out[..at + 12], &file.bytes[..at + 12]);
    assert_eq!(
        &out[at + 12..at + 28],
        &[0, 0x10, 0, 0, 0x40, 0x20, 0, 0, 0, 0x11, 0, 0, 0x80, 0x20, 0, 0]
    );
    assert_eq!(process_eh_frame_hdr(&out, false, false), file.bytes);
    let (_, streams) = split_streams(&out, &[]);
    assert_eq!(streams[13].len(), 28);
    assert_eq!(decompress(&compress(&file.bytes)), Ok(file.bytes));
}

#[test]
fn a_file_that_the_parser_rejects_is_routed_as_other() {
    // a symbol table that is not made of whole symbols is malformed
    let file = elf(&[
        sec(".text", PROGBITS, ALLOC | EXEC, 0x40_1000, code()),
        sec(".symtab", SYMTAB, 0, 0, vec![9u8; 23]),
    ]);
    assert!(load_object(&file.bytes).is_none());
    assert_eq!(process_binary(&file.bytes, true, false), file.bytes);
    let (_, streams) = split_streams(&file.bytes, &[]);
    assert_eq!(streams[0], file.bytes);
    assert_eq!(decompress(&compress(&file.bytes)), Ok(file.bytes));
}

#[test]
fn an_object_file_with_all_kinds_of_sections_round_trips() {
    let mut relas = Vec::new();
    for i in 0..10u64 {
        relas.extend(rela(0x40_3000 + 8 * i, (i % 3) as u32, 8, 0x100 - 0x20 * i as i64));
    }
    let mut dynamic = Vec::new();
    for i in 0..6u64 {
        dynamic.extend_from_slice(&(i + 1).to_le_bytes());
        dynamic.extend_from_slice(&(0x40_0000 + 0x100 * i).to_le_bytes());
    }
    let mut symtab = Vec::new();
    for i in 0..5u32 {
        symtab.extend_from_slice(&(i * 9).to_le_bytes());
        symtab.extend_from_slice(&[0x12, 0, 1, 0]);
        symtab.extend_from_slice(&(0x40_1000 + 0x10 * i as u64).to_le_bytes());
        symtab.extend_from_slice(&(16u64).to_le_bytes());
    }
    let mut relr = Vec::new();
    for v in [0x40_3000u64, 0x55, 0x40_3800, 0x40_3808] {
        relr.extend_from_slice(&v.to_le_bytes());
    }
    let values: Vec<i32> = (0..6).map(|k| into_text(k, 0x40_1000 + 0x20 * k)).collect();
    let mut hdr = vec![1u8, 0x1B, 0x03, 0x1B];
    hdr.extend_from_slice(&0x100i32.to_le_bytes());
    hdr.extend_from_slice(&1u32.to_le_bytes());
    hdr.extend(entries(&[-0x4000, 0x40]));
    let file = elf(&[
        sec(".text", PROGBITS, ALLOC | EXEC, 0x40_1000, code()),
        sec(".rodata", PROGBITS, ALLOC, 0x40_2000, entries(&values)),
        sec(".rela.dyn", RELA, ALLOC, 0x40_2100, relas),
        sec(".relr.dyn", 19, ALLOC, 0x40_2300, relr),
        sec(".dynamic", DYNAMIC, ALLOC | 1, 0x40_2400, dynamic),
        sec(".symtab", SYMTAB, 0, 0, symtab),
        sec(".eh_frame_hdr", PROGBITS, ALLOC, 0x40_5000, hdr),
        sec(".gnu.hash", PROGBITS, ALLOC, 0x40_6000, vec![3u8; 40]),
        sec(".gnu.version", PROGBITS, ALLOC, 0x40_6100, vec![1u8; 10]),
        sec(".got", PROGBITS, ALLOC | 1, 0x40_6200, vec![2u8; 24]),
        sec(".rodata.cst16", PROGBITS, ALLOC, 0x40_6300, vec![4u8; 32]),
        sec(".dynstr", 3, ALLOC, 0x40_6400, b"\0libc.so.6\0".to_vec()),
        sec(".bss", NOBITS, ALLOC | 1, 0x40_7000, vec![0; 64]),
    ]);
    for use_be in [false, true] {
        let packed = compress_with_mode(&file.bytes, use_be);
        let parts = parse_container(&packed).unwrap();
        assert_eq!(parts.orig_len as usize, file.bytes.len());
        assert_eq!(parts.use_be, use_be);
        for cat in [0usize, 1, 2, 3, 4, 5, 6, 7, 9, 11, 12, 13, 14] {
            assert!(!parts.blocks[cat].is_empty(), "category {}", cat);
        }
        assert!(parts.blocks[8].is_empty());
        assert!(parts.blocks[10].is_empty());
        assert_eq!(decompress(&packed), Ok(file.bytes.clone()));
    }
    let packed = compress(&file.bytes);
    assert_eq!(decompress(&packed), Ok(file.bytes));
}

#[test]
fn a_search_table_entry_above_32_bits_is_held_back_and_not_restored() {
    let mut hdr = vec![1u8, 0x1B, 0x03, 0x3B];
    hdr.extend_from_slice(&0x100i32.to_le_bytes());
    hdr.extend_from_slice(&1u32.to_le_bytes());
    hdr.extend(entries(&[0x10, 0x40]));
    let file = elf(&[sec(".eh_frame_hdr", PROGBITS, ALLOC, 0x2_0000_1000, hdr)]);
    let at = file.offsets[0];
    // going forward the entries stay: 0x2_0000_1010 - 0x40_0000 does not fit 32 bits
    assert_eq!(process_eh_frame_hdr(&file.bytes, true, false), file.bytes);
    // going back they are taken for rebased entries
    let back = process_eh_frame_hdr(&file.bytes, false, false);
    assert_ne!(&back[at + 12..at + 20], &file.bytes[at + 12..at + 20]);
    assert_eq!(fesh_comp::compare(&file.bytes), Err(fesh_comp::CompareError::Mismatch));
}
