//! Section names: the tests on a name's bytes by which a section is given
//! its category and its table kind.

use crate::category::{
    CAT_CODE, CAT_DYNAMIC16, CAT_EH, CAT_OTHER, CAT_REL16, CAT_RELA24, CAT_RELR8, CAT_S16, CAT_S2,
    CAT_S4, CAT_S8, CAT_STR, CAT_SYM24,
};
use crate::image::{SectionInfo, SectionModel};
use crate::tables::TableKind;
use vstd::prelude::*;
use vstd::string::StringSliceAdditionalSpecFns;

verus! {

/// Whether `name` begins with `prefix`.
pub open spec fn has_prefix(name: Seq<u8>, prefix: Seq<u8>) -> bool {
    prefix.len() <= name.len() && name.subrange(0, prefix.len() as int) == prefix
}

/// Whether `needle` occurs in `name` at byte `i`.
pub open spec fn occurs_at(name: Seq<u8>, needle: Seq<u8>, i: int) -> bool {
    0 <= i && i + needle.len() <= name.len() && name.subrange(i, i + needle.len()) == needle
}

/// Whether `needle` occurs somewhere in `name`.
pub open spec fn has_infix(name: Seq<u8>, needle: Seq<u8>) -> bool {
    exists|i: int| occurs_at(name, needle, i)
}

/// Tests whether `needle` occurs in `name` at byte `i`.
pub fn matches_at(name: &[u8], needle: &[u8], i: usize) -> (r: bool)
    ensures
        r == occurs_at(name@, needle@, i as int),
{
    if needle.len() > name.len() || i > name.len() - needle.len() {
        return false;
    }
    let mut k: usize = 0;
    while k < needle.len()
        invariant
            k <= needle.len(),
            i + needle.len() <= name.len(),
            forall|j: int| 0 <= j < k ==> name@[i + j] == needle@[j],
        decreases needle.len() - k,
    {
        if name[i + k] != needle[k] {
            proof {
                assert(name@.subrange(i as int, i + needle@.len())[k as int] == name@[i + k]);
            }
            return false;
        }
        k = k + 1;
    }
    proof {
        assert(name@.subrange(i as int, i + needle@.len()) =~= needle@);
    }
    true
}

/// Tests whether `name` is exactly `other`.
pub fn name_is(name: &[u8], other: &[u8]) -> (r: bool)
    ensures
        r == (name@ == other@),
{
    if name.len() != other.len() {
        return false;
    }
    let r = matches_at(name, other, 0);
    proof {
        assert(name@.subrange(0, name@.len() as int) =~= name@);
    }
    r
}

/// Tests whether `name` begins with `prefix`.
pub fn name_starts_with(name: &[u8], prefix: &[u8]) -> (r: bool)
    ensures
        r == has_prefix(name@, prefix@),
{
    matches_at(name, prefix, 0)
}

/// Tests whether `needle` occurs in `name`.
pub fn name_contains(name: &[u8], needle: &[u8]) -> (r: bool)
    ensures
        r == has_infix(name@, needle@),
{
    if needle.len() > name.len() {
        return false;
    }
    let last = name.len() - needle.len();
    let mut i: usize = 0;
    loop
        invariant
            i <= last,
            last == name.len() - needle.len(),
            forall|j: int| 0 <= j < i ==> !occurs_at(name@, needle@, j),
        decreases last - i,
    {
        if matches_at(name, needle, i) {
            return true;
        }
        if i == last {
            return false;
        }
        i = i + 1;
    }
}

/// The kind of table that a section of this name holds, `None` for a section
/// that is no table: relocation sections by the beginning of their name, the
/// symbol tables and the dynamic table by their whole name.
pub open spec fn table_kind_of(name: Seq<u8>) -> Option<TableKind> {
    if has_prefix(name, ".rela".spec_bytes()) {
        Some(TableKind::Rela)
    } else if has_prefix(name, ".rel".spec_bytes()) && !has_prefix(name, ".relr".spec_bytes()) {
        Some(TableKind::Rel)
    } else if name == ".dynsym".spec_bytes() || name == ".symtab".spec_bytes() {
        Some(TableKind::Sym)
    } else if has_prefix(name, ".relr".spec_bytes()) {
        Some(TableKind::Relr)
    } else if name == ".dynamic".spec_bytes() {
        Some(TableKind::Dynamic)
    } else {
        None
    }
}

/// Finds the kind of table that a section of this name holds.
pub fn table_kind(name: &[u8]) -> (r: Option<TableKind>)
    ensures
        r == table_kind_of(name@),
{
    if name_starts_with(name, ".rela".as_bytes()) {
        Some(TableKind::Rela)
    } else if name_starts_with(name, ".rel".as_bytes()) && !name_starts_with(
        name,
        ".relr".as_bytes(),
    ) {
        Some(TableKind::Rel)
    } else if name_is(name, ".dynsym".as_bytes()) || name_is(name, ".symtab".as_bytes()) {
        Some(TableKind::Sym)
    } else if name_starts_with(name, ".relr".as_bytes()) {
        Some(TableKind::Relr)
    } else if name_is(name, ".dynamic".as_bytes()) {
        Some(TableKind::Dynamic)
    } else {
        None
    }
}

/// Whether the name marks a section of 8-byte pointers.
pub open spec fn is_pointer_name(name: Seq<u8>) -> bool {
    has_prefix(name, ".got".spec_bytes()) || has_prefix(name, ".got.plt".spec_bytes())
        || has_prefix(name, ".data.rel.ro".spec_bytes()) || has_prefix(
        name,
        ".init_array".spec_bytes(),
    ) || has_prefix(name, ".fini_array".spec_bytes()) || has_prefix(name, ".plt.got".spec_bytes())
        || has_infix(name, "array".spec_bytes()) || has_infix(name, "cst8".spec_bytes())
}

/// The category of the bytes of a section; the first rule that applies
/// decides.
pub open spec fn category_of(sec: SectionModel) -> u8 {
    let name = sec.name;
    if sec.is_text {
        CAT_CODE
    } else if name == ".strtab".spec_bytes() || name == ".dynstr".spec_bytes() || has_infix(
        name,
        "str".spec_bytes(),
    ) {
        CAT_STR
    } else if has_infix(name, "eh_frame".spec_bytes()) || has_infix(
        name,
        "gcc_except".spec_bytes(),
    ) {
        CAT_EH
    } else if has_prefix(name, ".relr".spec_bytes()) {
        CAT_RELR8
    } else if has_prefix(name, ".rela".spec_bytes()) {
        CAT_RELA24
    } else if name == ".symtab".spec_bytes() || name == ".dynsym".spec_bytes() {
        CAT_SYM24
    } else if has_prefix(name, ".rel".spec_bytes()) {
        CAT_REL16
    } else if name == ".dynamic".spec_bytes() {
        CAT_DYNAMIC16
    } else if has_infix(name, "cst16".spec_bytes()) {
        CAT_S16
    } else if name == ".gnu.version".spec_bytes() {
        CAT_S2
    } else if is_pointer_name(name) {
        CAT_S8
    } else if has_infix(name, "hash".spec_bytes()) || has_infix(name, "cst4".spec_bytes()) {
        CAT_S4
    } else {
        CAT_OTHER
    }
}

/// Tests whether the name marks a section of 8-byte pointers.
pub fn pointer_name(name: &[u8]) -> (r: bool)
    ensures
        r == is_pointer_name(name@),
{
    name_starts_with(name, ".got".as_bytes()) || name_starts_with(name, ".got.plt".as_bytes())
        || name_starts_with(name, ".data.rel.ro".as_bytes()) || name_starts_with(
        name,
        ".init_array".as_bytes(),
    ) || name_starts_with(name, ".fini_array".as_bytes()) || name_starts_with(
        name,
        ".plt.got".as_bytes(),
    ) || name_contains(name, "array".as_bytes()) || name_contains(name, "cst8".as_bytes())
}

/// Finds the category of the bytes of a section.
pub fn section_category(sec: &SectionInfo) -> (r: u8)
    ensures
        r == category_of(sec@),
        r < 15,
{
    let name = sec.name.as_slice();
    if sec.is_text {
        CAT_CODE
    } else if name_is(name, ".strtab".as_bytes()) || name_is(name, ".dynstr".as_bytes())
        || name_contains(name, "str".as_bytes()) {
        CAT_STR
    } else if name_contains(name, "eh_frame".as_bytes()) || name_contains(
        name,
        "gcc_except".as_bytes(),
    ) {
        CAT_EH
    } else if name_starts_with(name, ".relr".as_bytes()) {
        CAT_RELR8
    } else if name_starts_with(name, ".rela".as_bytes()) {
        CAT_RELA24
    } else if name_is(name, ".symtab".as_bytes()) || name_is(name, ".dynsym".as_bytes()) {
        CAT_SYM24
    } else if name_starts_with(name, ".rel".as_bytes()) {
        CAT_REL16
    } else if name_is(name, ".dynamic".as_bytes()) {
        CAT_DYNAMIC16
    } else if name_contains(name, "cst16".as_bytes()) {
        CAT_S16
    } else if name_is(name, ".gnu.version".as_bytes()) {
        CAT_S2
    } else if pointer_name(name) {
        CAT_S8
    } else if name_contains(name, "hash".as_bytes()) || name_contains(name, "cst4".as_bytes()) {
        CAT_S4
    } else {
        CAT_OTHER
    }
}

} // verus!
