//! The jump-table detector: runs of 32-bit entries in read-only data that
//! point into the code are found, rebased to the image base and listed in a
//! side table, from which decompression finds them again.

use crate::bytes::{load_u32, u32_at};
use crate::error::DecodeError;
use crate::image::{
    image_base, image_base_of, load_object, loaded_object, section_range, ObjectInfo, ObjectModel,
    SectionInfo, SectionModel,
};
use crate::names::name_is;
use crate::rebase::{
    patches_in_image, rebase_fields, rebased, sign_extend, sign_extended, FieldPatch,
};
use crate::tables::wadd64;
use crate::varint::{read_varint, varint_bytes, varint_decode, write_varint};
use vstd::prelude::*;
use vstd::string::StringSliceAdditionalSpecFns;

verus! {

/// A jump table: `count` entries of four bytes from file offset `fo` on.
#[derive(Clone, Copy, Debug, PartialEq, Eq, Structural)]
pub struct JumpTable {
    pub fo: usize,
    pub count: usize,
}

/// The index of the first section named `.text` among the first `n`.
pub open spec fn first_text(sections: Seq<SectionModel>, n: int) -> Option<int>
    decreases n,
{
    if n <= 0 {
        None
    } else {
        match first_text(sections, n - 1) {
            Some(k) => Some(k),
            None => if sections[n - 1].name == ".text".spec_bytes() {
                Some(n - 1)
            } else {
                None
            },
        }
    }
}

/// Address and size of the code that jump tables point into: those of the
/// first section named `.text`, where there is one and its size is not 0.
pub open spec fn text_extent(sections: Seq<SectionModel>) -> Option<(u64, u64)> {
    match first_text(sections, sections.len() as int) {
        Some(k) => if sections[k].size != 0 {
            Some((sections[k].address, sections[k].size))
        } else {
            None
        },
        None => None,
    }
}

/// Whether the entry with value `val` at address `entry_va` points into the
/// code: the upper bound is not part of the code.
pub open spec fn points_into_text(entry_va: u64, val: u32, text_va: u64, text_size: u64) -> bool {
    let target = wadd64(entry_va, sign_extended(val));
    text_va <= target && target < text_va + text_size
}

/// Tests whether an entry points into the code.
pub fn entry_points_into_text(entry_va: u64, val: u32, text_va: u64, text_size: u64) -> (r: bool)
    ensures
        r == points_into_text(entry_va, val, text_va, text_size),
{
    let target = entry_va.wrapping_add(sign_extend(val));
    target >= text_va && target - text_va < text_size
}

/// Whether entry `k` of the data at `img[off..]`, loaded at `address`,
/// points into the code.
pub open spec fn entry_in_text(
    img: Seq<u8>,
    off: int,
    address: u64,
    text_va: u64,
    text_size: u64,
    k: int,
) -> bool {
    points_into_text(wadd64(address, (4 * k) as u64), u32_at(img, off + 4 * k), text_va, text_size)
}

/// The table that a run of `run` entries before entry `k` makes, where it
/// has at least four entries.
pub open spec fn closed_run(off: int, k: int, run: int) -> Seq<JumpTable> {
    if run >= 4 {
        seq![JumpTable { fo: (off + 4 * (k - run)) as usize, count: run as usize }]
    } else {
        Seq::empty()
    }
}

/// The jump tables among the entries `k..n` of the data at `img[off..]`,
/// when the `run` entries before `k` point into the code: the maximal runs
/// of at least four entries that point into the code, in file order.
pub open spec fn scanned_tables(
    img: Seq<u8>,
    off: int,
    address: u64,
    text_va: u64,
    text_size: u64,
    n: int,
    k: int,
    run: int,
) -> Seq<JumpTable>
    decreases n - k,
{
    if k >= n {
        closed_run(off, k, run)
    } else if entry_in_text(img, off, address, text_va, text_size, k) {
        scanned_tables(img, off, address, text_va, text_size, n, k + 1, run + 1)
    } else {
        closed_run(off, k, run) + scanned_tables(
            img,
            off,
            address,
            text_va,
            text_size,
            n,
            k + 1,
            0,
        )
    }
}

/// Offset and length of the data of a section that is searched for jump
/// tables, in an image of `len` bytes: for a section named `.rodata` or
/// `.data.rel.ro` whose bytes are in the file, whose data length is that of
/// its file range, and whose range lies within the image.
pub open spec fn table_data_range(sec: SectionModel, len: int) -> Option<(int, int)> {
    match (sec.file_range, sec.data_len) {
        (Some((off, size)), Some(data_len)) => if (sec.name == ".rodata".spec_bytes() || sec.name
            == ".data.rel.ro".spec_bytes()) && data_len == size && off + size <= len {
            Some((off as int, size as int))
        } else {
            None
        },
        _ => None,
    }
}

/// The jump tables of one section.
pub open spec fn section_tables(
    img: Seq<u8>,
    sec: SectionModel,
    text_va: u64,
    text_size: u64,
) -> Seq<JumpTable> {
    match table_data_range(sec, img.len() as int) {
        Some((off, size)) => scanned_tables(
            img,
            off,
            sec.address,
            text_va,
            text_size,
            size / 4,
            0,
            0,
        ),
        None => Seq::empty(),
    }
}

/// The jump tables of the first `n` sections, in section order.
pub open spec fn detected_tables(
    img: Seq<u8>,
    sections: Seq<SectionModel>,
    n: int,
    text_va: u64,
    text_size: u64,
) -> Seq<JumpTable>
    decreases n,
{
    if n <= 0 {
        Seq::empty()
    } else {
        detected_tables(img, sections, n - 1, text_va, text_size) + section_tables(
            img,
            sections[n - 1],
            text_va,
            text_size,
        )
    }
}

/// Whether every table lies within an image of `len` bytes.
pub open spec fn tables_in_image(tables: Seq<JumpTable>, len: int) -> bool {
    forall|i: int|
        0 <= i < tables.len() ==> (#[trigger] tables[i]).fo + 4 * tables[i].count <= len
}

/// The virtual address of the byte at file offset `offset`: that of the
/// first section from `k` on whose file range holds the offset, 0 where
/// there is none.
pub open spec fn va_of_offset(sections: Seq<SectionModel>, k: int, offset: int) -> u64
    decreases sections.len() - k,
{
    if k < 0 || k >= sections.len() {
        0
    } else {
        match sections[k].file_range {
            Some((fo, size)) => if fo <= offset < fo + size {
                wadd64(sections[k].address, (offset - fo) as u64)
            } else {
                va_of_offset(sections, k + 1, offset)
            },
            None => va_of_offset(sections, k + 1, offset),
        }
    }
}

/// Entry `i` of a table as a field to rebase.
pub open spec fn table_field(sections: Seq<SectionModel>, table: JumpTable, i: int) -> FieldPatch {
    FieldPatch {
        fo: (table.fo + 4 * i) as usize,
        va: va_of_offset(sections, 0, table.fo + 4 * i),
    }
}

/// The entries of the first `n` tables as fields to rebase, in table order.
pub open spec fn table_patches(
    sections: Seq<SectionModel>,
    tables: Seq<JumpTable>,
    n: int,
) -> Seq<FieldPatch>
    decreases n,
{
    if n <= 0 {
        Seq::empty()
    } else {
        table_patches(sections, tables, n - 1) + Seq::new(
            tables[n - 1].count as nat,
            |i: int| table_field(sections, tables[n - 1], i),
        )
    }
}

/// The side table for the first `n` tables from `k` on, after a table at
/// file offset `prev`: for each table the distance of its file offset to
/// that of the table before, modulo 2^64, and its number of entries.
pub open spec fn table_entries_meta(tables: Seq<JumpTable>, k: int, prev: u64) -> Seq<u8>
    decreases tables.len() - k,
{
    if k < 0 || k >= tables.len() {
        Seq::empty()
    } else {
        varint_bytes(vstd::wrapping::u64_specs::wrapping_sub(tables[k].fo as u64, prev))
            + varint_bytes(tables[k].count as u64) + table_entries_meta(
            tables,
            k + 1,
            tables[k].fo as u64,
        )
    }
}

/// The side table: the number of tables, then the tables.
pub open spec fn tables_meta(tables: Seq<JumpTable>) -> Seq<u8> {
    varint_bytes(tables.len() as u64) + table_entries_meta(tables, 0, 0)
}

/// What is read of `remaining` tables from byte `pos` of a side table on:
/// file offset and entry count of each, or the failure of the varint that
/// cannot be read.
pub open spec fn meta_entries(meta: Seq<u8>, pos: int, remaining: int, prev: u64) -> Result<
    Seq<(u64, u64)>,
    DecodeError,
>
    decreases remaining,
{
    if remaining <= 0 {
        Ok(Seq::empty())
    } else {
        match varint_decode(meta, pos) {
            Err(e) => Err(e),
            Ok((delta, mid)) => match varint_decode(meta, mid) {
                Err(e) => Err(e),
                Ok((count, next)) => {
                    let fo = wadd64(prev, delta);
                    match meta_entries(meta, next, remaining - 1, fo) {
                        Err(e) => Err(e),
                        Ok(rest) => Ok(seq![(fo, count)] + rest),
                    }
                },
            },
        }
    }
}

/// Whether every table read from a side table lies within an image of
/// `len` bytes.
pub open spec fn entries_in_image(entries: Seq<(u64, u64)>, len: int) -> bool {
    forall|i: int| 0 <= i < entries.len() ==> (#[trigger] entries[i]).0 + 4 * entries[i].1 <= len
}

/// What a side table says for an image of `len` bytes. A side table whose
/// number of tables cannot be read names no table. A table that cannot be
/// read, or does not lie within the image, is an error.
pub open spec fn meta_tables(meta: Seq<u8>, len: int) -> Result<Seq<JumpTable>, DecodeError> {
    match varint_decode(meta, 0) {
        Err(_) => Ok(Seq::empty()),
        Ok((count, pos)) => match meta_entries(meta, pos, count as int, 0) {
            Err(e) => Err(e),
            Ok(entries) => if entries_in_image(entries, len) {
                Ok(
                    Seq::new(
                        entries.len(),
                        |i: int|
                            JumpTable { fo: entries[i].0 as usize, count: entries[i].1 as usize },
                    ),
                )
            } else {
                Err(DecodeError::JumpTableOutOfImage)
            },
        },
    }
}

/// What the jump-table stage gives for the image `data` and the object `o`:
/// the image with the entries of its jump tables rebased, the side table
/// (going forward), and the tables. Going forward the tables are those found
/// in the image, going back those of the side table `meta`. Where the object
/// has no code, the image comes back unchanged, with no table.
pub open spec fn jump_tables_patched(
    data: Seq<u8>,
    o: ObjectModel,
    forward: bool,
    use_be: bool,
    meta: Seq<u8>,
) -> Result<(Seq<u8>, Seq<u8>, Seq<JumpTable>), DecodeError> {
    match text_extent(o.sections) {
        None => Ok((data, Seq::empty(), Seq::empty())),
        Some((text_va, text_size)) => {
            let found = if forward {
                Ok(
                    detected_tables(
                        data,
                        o.sections,
                        o.sections.len() as int,
                        text_va,
                        text_size,
                    ),
                )
            } else {
                meta_tables(meta, data.len() as int)
            };
            match found {
                Err(e) => Err(e),
                Ok(tables) => {
                    let patches = table_patches(o.sections, tables, tables.len() as int);
                    Ok(
                        (
                            rebased(
                                data,
                                patches,
                                patches.len() as int,
                                image_base_of(o),
                                forward,
                                use_be,
                                false,
                            ),
                            if forward {
                                tables_meta(tables)
                            } else {
                                Seq::empty()
                            },
                            tables,
                        ),
                    )
                },
            }
        },
    }
}

/// What the jump-table stage gives for the image `data`, the object being
/// read from the image. Where no supported object is read from it, the image
/// comes back unchanged, with no table.
pub open spec fn jump_tables_processed(
    data: Seq<u8>,
    forward: bool,
    use_be: bool,
    meta: Seq<u8>,
) -> Result<(Seq<u8>, Seq<u8>, Seq<JumpTable>), DecodeError> {
    match loaded_object(data) {
        None => Ok((data, Seq::empty(), Seq::empty())),
        Some(o) => jump_tables_patched(data, o, forward, use_be, meta),
    }
}

/// Finds the code that jump tables point into.
pub fn find_text(obj: &ObjectInfo) -> (r: Option<(u64, u64)>)
    ensures
        r == text_extent(obj@.sections),
{
    let mut i: usize = 0;
    while i < obj.sections.len()
        invariant
            i <= obj.sections.len(),
            first_text(obj@.sections, i as int).is_none(),
        decreases obj.sections.len() - i,
    {
        let sec = &obj.sections[i];
        assert(sec@ == obj@.sections[i as int]);
        if name_is(sec.name.as_slice(), ".text".as_bytes()) {
            proof {
                lemma_first_text_stays(obj@.sections, i + 1, obj@.sections.len() as int);
            }
            if sec.size != 0 {
                return Some((sec.address, sec.size));
            } else {
                return None;
            }
        }
        i = i + 1;
    }
    None
}

/// The first section named `.text` among the first `n` is the first among
/// more sections too.
proof fn lemma_first_text_stays(sections: Seq<SectionModel>, n: int, m: int)
    requires
        n <= m,
        first_text(sections, n).is_some(),
    ensures
        first_text(sections, m) == first_text(sections, n),
    decreases m - n,
{
    if n < m {
        lemma_first_text_stays(sections, n, m - 1);
    }
}

/// Finds where the data of a section that is searched for jump tables lies
/// in an image of `len` bytes.
pub fn section_table_range(sec: &SectionInfo, len: usize) -> (r: Option<(usize, usize)>)
    ensures
        match table_data_range(sec@, len as int) {
            Some((off, size)) => r == Some((off as usize, size as usize)) && off + size <= len,
            None => r.is_none(),
        },
{
    let name = sec.name.as_slice();
    if !name_is(name, ".rodata".as_bytes()) && !name_is(name, ".data.rel.ro".as_bytes()) {
        return None;
    }
    match (section_range(sec, len), sec.data_len) {
        (Some((off, size)), Some(data_len)) => {
            if data_len == size as u64 {
                Some((off, size))
            } else {
                None
            }
        },
        _ => None,
    }
}

/// A table that closes before a later entry lies before that entry.
proof fn lemma_closed_run_in_image(off: int, k: int, run: int, len: int)
    requires
        0 <= run <= k,
        0 <= off,
        off + 4 * k <= len,
        len <= usize::MAX,
    ensures
        tables_in_image(closed_run(off, k, run), len),
{
}

/// Appends the jump tables of the data at `img[off..off + size]`, which is
/// loaded at virtual address `address`.
pub fn scan_section(
    img: &[u8],
    off: usize,
    size: usize,
    address: u64,
    text_va: u64,
    text_size: u64,
    tables: &mut Vec<JumpTable>,
)
    requires
        off + size <= img.len(),
        tables_in_image(old(tables)@, img.len() as int),
    ensures
        final(tables)@ == old(tables)@ + scanned_tables(
            img@,
            off as int,
            address,
            text_va,
            text_size,
            size as int / 4,
            0,
            0,
        ),
        tables_in_image(final(tables)@, img.len() as int),
{
    let n = size / 4;
    let mut k: usize = 0;
    let mut run: usize = 0;
    let ghost all = scanned_tables(img@, off as int, address, text_va, text_size, n as int, 0, 0);
    while k < n
        invariant
            k <= n,
            run <= k,
            n == size as int / 4,
            off + size <= img.len(),
            tables@ + scanned_tables(
                img@,
                off as int,
                address,
                text_va,
                text_size,
                n as int,
                k as int,
                run as int,
            ) == old(tables)@ + all,
            tables_in_image(tables@, img.len() as int),
        decreases n - k,
    {
        let val = load_u32(img, off + 4 * k);
        let entry_va = address.wrapping_add((4 * k) as u64);
        let ghost rest = scanned_tables(
            img@,
            off as int,
            address,
            text_va,
            text_size,
            n as int,
            k + 1,
            0,
        );
        if entry_points_into_text(entry_va, val, text_va, text_size) {
            run = run + 1;
        } else {
            let ghost before = tables@;
            if run >= 4 {
                tables.push(JumpTable { fo: off + 4 * (k - run), count: run });
            }
            proof {
                let closed = closed_run(off as int, k as int, run as int);
                lemma_closed_run_in_image(off as int, k as int, run as int, img.len() as int);
                assert(tables@ =~= before + closed);
                assert((before + closed) + rest =~= before + (closed + rest));
            }
            run = 0;
        }
        k = k + 1;
    }
    let ghost before = tables@;
    if run >= 4 {
        tables.push(JumpTable { fo: off + 4 * (k - run), count: run });
    }
    proof {
        lemma_closed_run_in_image(off as int, k as int, run as int, img.len() as int);
        assert(tables@ =~= before + closed_run(off as int, k as int, run as int));
    }
}

/// Finds the jump tables of the image: the runs of at least four entries
/// that point into the code, in the sections of read-only data.
pub fn detect_jump_tables(
    img: &[u8],
    obj: &ObjectInfo,
    text_va: u64,
    text_size: u64,
) -> (tables: Vec<JumpTable>)
    ensures
        tables@ == detected_tables(
            img@,
            obj@.sections,
            obj@.sections.len() as int,
            text_va,
            text_size,
        ),
        tables_in_image(tables@, img.len() as int),
{
    let mut tables: Vec<JumpTable> = Vec::new();
    let mut i: usize = 0;
    while i < obj.sections.len()
        invariant
            i <= obj.sections.len(),
            tables@ == detected_tables(img@, obj@.sections, i as int, text_va, text_size),
            tables_in_image(tables@, img.len() as int),
        decreases obj.sections.len() - i,
    {
        let sec = &obj.sections[i];
        assert(sec@ == obj@.sections[i as int]);
        match section_table_range(sec, img.len()) {
            Some((off, size)) => {
                scan_section(img, off, size, sec.address, text_va, text_size, &mut tables);
            },
            None => {
                proof {
                    assert(tables@ + Seq::<JumpTable>::empty() =~= tables@);
                }
            },
        }
        i = i + 1;
    }
    tables
}

/// Writes the side table.
pub fn write_tables_meta(tables: &Vec<JumpTable>) -> (meta: Vec<u8>)
    ensures
        meta@ == tables_meta(tables@),
{
    let mut meta: Vec<u8> = Vec::new();
    write_varint(&mut meta, tables.len() as u64);
    let mut prev: u64 = 0;
    let mut k: usize = 0;
    while k < tables.len()
        invariant
            k <= tables.len(),
            meta@ + table_entries_meta(tables@, k as int, prev) == tables_meta(tables@),
        decreases tables.len() - k,
    {
        let t = tables[k];
        let ghost before = meta@;
        let ghost rest = table_entries_meta(tables@, k + 1, t.fo as u64);
        write_varint(&mut meta, (t.fo as u64).wrapping_sub(prev));
        write_varint(&mut meta, t.count as u64);
        proof {
            let a = varint_bytes(vstd::wrapping::u64_specs::wrapping_sub(t.fo as u64, prev));
            let b = varint_bytes(t.count as u64);
            assert((before + a + b) + rest =~= before + (a + b + rest));
        }
        prev = t.fo as u64;
        k = k + 1;
    }
    proof {
        assert(meta@ + Seq::<u8>::empty() =~= meta@);
    }
    meta
}

/// Reads the side table for an image of `len` bytes.
pub fn read_tables_meta(meta: &[u8], len: usize) -> (r: Result<Vec<JumpTable>, DecodeError>)
    ensures
        match meta_tables(meta@, len as int) {
            Ok(tables) => r.is_ok() && r.unwrap()@ == tables && tables_in_image(
                tables,
                len as int,
            ),
            Err(e) => r == Err::<Vec<JumpTable>, DecodeError>(e),
        },
{
    let mut pos: usize = 0;
    let count = match read_varint(meta, &mut pos) {
        Ok(v) => v,
        Err(_) => {
            return Ok(Vec::new());
        },
    };
    let ghost start = pos as int;
    let ghost whole = meta_entries(meta@, start, count as int, 0);
    let mut entries: Vec<(u64, u64)> = Vec::new();
    let mut prev: u64 = 0;
    let mut k: u64 = 0;
    while k < count
        invariant
            k <= count,
            varint_decode(meta@, 0) == Ok::<(u64, int), DecodeError>((count, start)),
            whole == meta_entries(meta@, start, count as int, 0),
            whole == (match meta_entries(meta@, pos as int, count - k, prev) {
                Ok(rest) => Ok::<Seq<(u64, u64)>, DecodeError>(entries@ + rest),
                Err(e) => Err(e),
            }),
        decreases count - k,
    {
        let delta = match read_varint(meta, &mut pos) {
            Ok(v) => v,
            Err(e) => {
                return Err(e);
            },
        };
        let n = match read_varint(meta, &mut pos) {
            Ok(v) => v,
            Err(e) => {
                return Err(e);
            },
        };
        let fo = prev.wrapping_add(delta);
        proof {
            let rest = meta_entries(meta@, pos as int, count - k - 1, fo);
            if rest.is_ok() {
                assert(entries@.push((fo, n)) + rest.unwrap() =~= entries@ + (seq![(fo, n)]
                    + rest.unwrap()));
            }
        }
        entries.push((fo, n));
        prev = fo;
        k = k + 1;
    }
    proof {
        assert(entries@ + Seq::<(u64, u64)>::empty() =~= entries@);
    }
    let mut tables: Vec<JumpTable> = Vec::new();
    let mut i: usize = 0;
    while i < entries.len()
        invariant
            i <= entries.len(),
            tables@.len() == i,
            varint_decode(meta@, 0) == Ok::<(u64, int), DecodeError>((count, start)),
            meta_entries(meta@, start, count as int, 0) == Ok::<Seq<(u64, u64)>, DecodeError>(
                entries@,
            ),
            forall|j: int|
                0 <= j < i ==> (#[trigger] entries@[j]).0 + 4 * entries@[j].1 <= len
                    && tables@[j] == (JumpTable {
                    fo: entries@[j].0 as usize,
                    count: entries@[j].1 as usize,
                }),
        decreases entries.len() - i,
    {
        let (fo, n) = entries[i];
        if fo > len as u64 || n > (len as u64 - fo) / 4 {
            proof {
                assert(entries@[i as int].0 + 4 * entries@[i as int].1 > len);
                assert(!entries_in_image(entries@, len as int));
            }
            return Err(DecodeError::JumpTableOutOfImage);
        }
        tables.push(JumpTable { fo: fo as usize, count: n as usize });
        i = i + 1;
    }
    proof {
        assert(entries_in_image(entries@, len as int));
        assert(tables@ =~= Seq::new(
            entries@.len(),
            |i: int| JumpTable { fo: entries@[i].0 as usize, count: entries@[i].1 as usize },
        ));
    }
    Ok(tables)
}

/// Finds the virtual address of the byte at file offset `offset`.
pub fn file_to_va(obj: &ObjectInfo, offset: u64) -> (r: u64)
    ensures
        r == va_of_offset(obj@.sections, 0, offset as int),
{
    let mut k: usize = 0;
    while k < obj.sections.len()
        invariant
            k <= obj.sections.len(),
            va_of_offset(obj@.sections, 0, offset as int) == va_of_offset(
                obj@.sections,
                k as int,
                offset as int,
            ),
        decreases obj.sections.len() - k,
    {
        let sec = &obj.sections[k];
        assert(sec@ == obj@.sections[k as int]);
        match sec.file_range {
            Some((fo, size)) => {
                if offset >= fo && offset - fo < size {
                    return sec.address.wrapping_add(offset - fo);
                }
            },
            None => {},
        }
        k = k + 1;
    }
    0
}

/// Lists the entries of the tables as fields to rebase.
pub fn collect_table_patches(
    obj: &ObjectInfo,
    tables: &Vec<JumpTable>,
    len: usize,
) -> (patches: Vec<FieldPatch>)
    requires
        tables_in_image(tables@, len as int),
    ensures
        patches@ == table_patches(obj@.sections, tables@, tables@.len() as int),
        patches_in_image(patches@, len as int),
{
    let mut patches: Vec<FieldPatch> = Vec::new();
    let mut t: usize = 0;
    while t < tables.len()
        invariant
            t <= tables.len(),
            tables_in_image(tables@, len as int),
            patches@ == table_patches(obj@.sections, tables@, t as int),
            patches_in_image(patches@, len as int),
        decreases tables.len() - t,
    {
        let table = tables[t];
        let ghost before = patches@;
        let ghost entries = Seq::new(
            table.count as nat,
            |i: int| table_field(obj@.sections, table, i),
        );
        let mut i: usize = 0;
        while i < table.count
            invariant
                i <= table.count,
                table.fo + 4 * table.count <= len,
                entries == Seq::new(
                    table.count as nat,
                    |i: int| table_field(obj@.sections, table, i),
                ),
                patches@ == before + entries.take(i as int),
                patches_in_image(patches@, len as int),
            decreases table.count - i,
        {
            let p = table.fo + 4 * i;
            let va = file_to_va(obj, p as u64);
            patches.push(FieldPatch { fo: p, va });
            proof {
                assert(entries.take(i + 1) =~= entries.take(i as int).push(entries[i as int]));
                assert(patches@ =~= before + entries.take(i + 1));
            }
            i = i + 1;
        }
        proof {
            assert(entries.take(table.count as int) =~= entries);
        }
        t = t + 1;
    }
    patches
}

/// The jump-table stage for the object `obj`. Going forward the tables are
/// searched in the image; going back they are read from the side table
/// `jt_meta_in`.
pub fn patch_jump_tables(
    file_data: &[u8],
    obj: &ObjectInfo,
    is_compress: bool,
    use_be: bool,
    jt_meta_in: &[u8],
) -> (r: Result<(Vec<u8>, Vec<u8>, Vec<JumpTable>), DecodeError>)
    ensures
        match jump_tables_patched(file_data@, obj@, is_compress, use_be, jt_meta_in@) {
            Ok((img, meta, tables)) => r.is_ok() && r.unwrap().0@ == img && r.unwrap().1@ == meta
                && r.unwrap().2@ == tables && img.len() == file_data@.len() && tables_in_image(
                tables,
                img.len() as int,
            ),
            Err(e) => r is Err && r->Err_0 == e,
        },
        is_compress ==> r.is_ok(),
{
    let mut out = vstd::slice::slice_to_vec(file_data);
    let (text_va, text_size) = match find_text(obj) {
        Some(t) => t,
        None => {
            return Ok((out, Vec::new(), Vec::new()));
        },
    };
    let base = image_base(obj);
    let tables = if is_compress {
        detect_jump_tables(file_data, obj, text_va, text_size)
    } else {
        match read_tables_meta(jt_meta_in, file_data.len()) {
            Ok(t) => t,
            Err(e) => {
                return Err(e);
            },
        }
    };
    let meta_out = if is_compress {
        write_tables_meta(&tables)
    } else {
        Vec::new()
    };
    let patches = collect_table_patches(obj, &tables, file_data.len());
    rebase_fields(out.as_mut_slice(), &patches, base, is_compress, use_be, false);
    Ok((out, meta_out, tables))
}

/// The jump-table stage: reads the object in `file_data` and, where it is of
/// the supported kind and has code, rebases the entries of its jump tables.
/// Returns the image, the side table (going forward) and the tables.
pub fn process_jump_tables(
    file_data: &[u8],
    is_compress: bool,
    use_be: bool,
    jt_meta_in: Option<&[u8]>,
) -> (r: Result<(Vec<u8>, Vec<u8>, Vec<JumpTable>), DecodeError>)
    ensures
        match jump_tables_processed(
            file_data@,
            is_compress,
            use_be,
            match jt_meta_in {
                Some(m) => m@,
                None => Seq::empty(),
            },
        ) {
            Ok((img, meta, tables)) => r.is_ok() && r.unwrap().0@ == img && r.unwrap().1@ == meta
                && r.unwrap().2@ == tables && img.len() == file_data@.len() && tables_in_image(
                tables,
                img.len() as int,
            ),
            Err(e) => r is Err && r->Err_0 == e,
        },
        is_compress ==> r.is_ok(),
{
    let empty: [u8; 0] = [];
    let meta: &[u8] = match jt_meta_in {
        Some(m) => m,
        None => empty.as_slice(),
    };
    match load_object(file_data) {
        Some(obj) => patch_jump_tables(file_data, &obj, is_compress, use_be, meta),
        None => Ok((vstd::slice::slice_to_vec(file_data), Vec::new(), Vec::new())),
    }
}

} // verus!
