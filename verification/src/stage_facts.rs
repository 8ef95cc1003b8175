//! Facts on what the stages compute: the fields they rebase lie within the
//! image, the tables they find lie within the image, and the labels of the
//! router are categories.

use crate::eh::{eh_field, eh_layout, eh_patches, eh_range, eh_section_patches};
use crate::image::{ObjectModel, SectionModel};
use crate::jump::{
    closed_run, detected_tables, scanned_tables, section_tables, table_data_range, table_field,
    table_patches, tables_in_image, JumpTable,
};
use crate::rebase::{patches_in_image, FieldPatch};
use crate::router::{image_labels, section_labels, table_labels, valid_labels};
use crate::text::{code_patches, code_range, instruction_patches, section_patches, text_patches};
use vstd::prelude::*;

verus! {

/// The fields found in code lie within the image.
pub proof fn lemma_code_patches_in_image(
    code: Seq<u8>,
    va: u64,
    file_off: int,
    image_len: int,
    pos: int,
)
    requires
        0 <= file_off,
        image_len <= usize::MAX,
    ensures
        patches_in_image(code_patches(code, va, file_off, image_len, pos), image_len),
    decreases code.len() - pos,
{
    if 0 <= pos < code.len() {
        let ip = crate::tables::wadd64(va, pos as u64);
        let info = crate::text::decoded_instruction(code.subrange(pos, code.len() as int), ip);
        if !(info.len == 0 || pos + info.len > code.len()) {
            lemma_code_patches_in_image(code, va, file_off, image_len, pos + info.len);
            let one = instruction_patches(
                info,
                file_off + pos,
                crate::tables::wadd64(ip, info.len as u64),
                image_len,
            );
            let rest = code_patches(code, va, file_off, image_len, pos + info.len);
            assert(patches_in_image(one, image_len));
            assert forall|i: int| 0 <= i < (one + rest).len() implies (#[trigger] (one
                + rest)[i]).fo + 4 <= image_len by {
                if i >= one.len() {
                    assert((one + rest)[i] == rest[i - one.len()]);
                }
            }
        }
    }
}

/// Appending fields that lie within the image to such fields gives such
/// fields.
pub proof fn lemma_patches_in_image_concat(a: Seq<FieldPatch>, b: Seq<FieldPatch>, len: int)
    requires
        patches_in_image(a, len),
        patches_in_image(b, len),
    ensures
        patches_in_image(a + b, len),
{
    assert forall|i: int| 0 <= i < (a + b).len() implies (#[trigger] (a + b)[i]).fo + 4 <= len by {
        if i >= a.len() {
            assert((a + b)[i] == b[i - a.len()]);
        }
    }
}

/// The fields found in the code sections lie within the image.
pub proof fn lemma_text_patches_in_image(img: Seq<u8>, sections: Seq<SectionModel>, n: int)
    requires
        img.len() <= usize::MAX,
    ensures
        patches_in_image(text_patches(img, sections, n), img.len() as int),
    decreases n,
{
    if n > 0 {
        lemma_text_patches_in_image(img, sections, n - 1);
        let sec = sections[n - 1];
        match code_range(sec, img.len() as int) {
            Some((off, size)) => {
                lemma_code_patches_in_image(
                    img.subrange(off, off + size),
                    sec.address,
                    off,
                    img.len() as int,
                    0,
                );
            },
            None => {},
        }
        lemma_patches_in_image_concat(
            text_patches(img, sections, n - 1),
            section_patches(img, sec),
            img.len() as int,
        );
    }
}

/// The entries of the search tables lie within the image.
pub proof fn lemma_eh_patches_in_image(img: Seq<u8>, sections: Seq<SectionModel>, n: int)
    requires
        img.len() <= usize::MAX,
    ensures
        patches_in_image(eh_patches(img, sections, n), img.len() as int),
    decreases n,
{
    if n > 0 {
        lemma_eh_patches_in_image(img, sections, n - 1);
        let sec = sections[n - 1];
        let one = eh_section_patches(img, sec);
        assert(patches_in_image(one, img.len() as int)) by {
            match eh_range(sec, img.len() as int) {
                Some((off, size)) => {
                    let data = img.subrange(off, off + size);
                    match eh_layout(data) {
                        Some((first, count)) => {
                            assert forall|i: int| 0 <= i < one.len() implies (#[trigger] one[i]).fo
                                + 4 <= img.len() by {
                                assert(one[i] == eh_field(
                                    off,
                                    sec.address,
                                    first,
                                    crate::eh::is_pcrel(data),
                                    i,
                                ));
                            }
                        },
                        None => {},
                    }
                },
                None => {},
            }
        }
        lemma_patches_in_image_concat(eh_patches(img, sections, n - 1), one, img.len() as int);
    }
}

/// Appending tables that lie within the image to such tables gives such
/// tables.
pub proof fn lemma_tables_in_image_concat(a: Seq<JumpTable>, b: Seq<JumpTable>, len: int)
    requires
        tables_in_image(a, len),
        tables_in_image(b, len),
    ensures
        tables_in_image(a + b, len),
{
    assert forall|i: int| 0 <= i < (a + b).len() implies (#[trigger] (a + b)[i]).fo + 4 * (a
        + b)[i].count <= len by {
        if i >= a.len() {
            assert((a + b)[i] == b[i - a.len()]);
        }
    }
}

/// The tables found among the entries of a section lie within the section.
pub proof fn lemma_scanned_in_image(
    img: Seq<u8>,
    off: int,
    address: u64,
    text_va: u64,
    text_size: u64,
    n: int,
    k: int,
    run: int,
    len: int,
)
    requires
        0 <= off,
        0 <= run <= k <= n,
        off + 4 * n <= len,
        len <= usize::MAX,
    ensures
        tables_in_image(scanned_tables(img, off, address, text_va, text_size, n, k, run), len),
    decreases n - k,
{
    if k < n {
        if crate::jump::entry_in_text(img, off, address, text_va, text_size, k) {
            lemma_scanned_in_image(img, off, address, text_va, text_size, n, k + 1, run + 1, len);
        } else {
            lemma_scanned_in_image(img, off, address, text_va, text_size, n, k + 1, 0, len);
            lemma_tables_in_image_concat(
                closed_run(off, k, run),
                scanned_tables(img, off, address, text_va, text_size, n, k + 1, 0),
                len,
            );
        }
    }
}

/// Whether `table` is a run of at least four entries of the data at
/// `img[off..]`, each of which points into the code.
pub open spec fn is_run_into_text(
    img: Seq<u8>,
    off: int,
    address: u64,
    text_va: u64,
    text_size: u64,
    table: JumpTable,
) -> bool {
    &&& table.count >= 4
    &&& off <= table.fo
    &&& (table.fo - off) % 4 == 0
    &&& forall|j: int|
        0 <= j < table.count ==> crate::jump::entry_in_text(
            img,
            off,
            address,
            text_va,
            text_size,
            #[trigger] ((table.fo - off) / 4 + j),
        )
}

/// Every table that is found among the entries of a section is a run of at
/// least four entries that point into the code.
pub proof fn lemma_scanned_are_runs(
    img: Seq<u8>,
    off: int,
    address: u64,
    text_va: u64,
    text_size: u64,
    n: int,
    k: int,
    run: int,
)
    requires
        0 <= off,
        0 <= run <= k <= n,
        off + 4 * n <= usize::MAX,
        forall|j: int|
            k - run <= j < k ==> crate::jump::entry_in_text(
                img,
                off,
                address,
                text_va,
                text_size,
                j,
            ),
    ensures
        forall|i: int|
            0 <= i < scanned_tables(img, off, address, text_va, text_size, n, k, run).len()
                ==> is_run_into_text(
                img,
                off,
                address,
                text_va,
                text_size,
                #[trigger] scanned_tables(img, off, address, text_va, text_size, n, k, run)[i],
            ),
    decreases n - k,
{
    let all = scanned_tables(img, off, address, text_va, text_size, n, k, run);
    let closed = closed_run(off, k, run);
    assert forall|i: int| 0 <= i < closed.len() implies is_run_into_text(
        img,
        off,
        address,
        text_va,
        text_size,
        #[trigger] closed[i],
    ) by {
        let t = closed[i];
        assert(t.fo == off + 4 * (k - run) && t.count == run);
        assert forall|j: int| 0 <= j < t.count implies crate::jump::entry_in_text(
            img,
            off,
            address,
            text_va,
            text_size,
            #[trigger] ((t.fo - off) / 4 + j),
        ) by {
            assert((t.fo - off) / 4 + j == k - run + j);
        }
    }
    if k < n {
        if crate::jump::entry_in_text(img, off, address, text_va, text_size, k) {
            lemma_scanned_are_runs(img, off, address, text_va, text_size, n, k + 1, run + 1);
            assert(all == scanned_tables(
                img,
                off,
                address,
                text_va,
                text_size,
                n,
                k + 1,
                run + 1,
            ));
        } else {
            lemma_scanned_are_runs(img, off, address, text_va, text_size, n, k + 1, 0);
            let rest = scanned_tables(img, off, address, text_va, text_size, n, k + 1, 0);
            assert(all == closed + rest);
            assert forall|i: int| 0 <= i < all.len() implies is_run_into_text(
                img,
                off,
                address,
                text_va,
                text_size,
                #[trigger] all[i],
            ) by {
                if i >= closed.len() {
                    assert(all[i] == rest[i - closed.len()]);
                } else {
                    assert(all[i] == closed[i]);
                }
            }
        }
    } else {
        assert(all == closed);
    }
}

/// The jump tables that are found lie within the image.
pub proof fn lemma_detected_in_image(
    img: Seq<u8>,
    sections: Seq<SectionModel>,
    n: int,
    text_va: u64,
    text_size: u64,
)
    requires
        img.len() <= usize::MAX,
    ensures
        tables_in_image(
            detected_tables(img, sections, n, text_va, text_size),
            img.len() as int,
        ),
    decreases n,
{
    if n > 0 {
        lemma_detected_in_image(img, sections, n - 1, text_va, text_size);
        let sec = sections[n - 1];
        match table_data_range(sec, img.len() as int) {
            Some((off, size)) => {
                lemma_scanned_in_image(
                    img,
                    off,
                    sec.address,
                    text_va,
                    text_size,
                    size / 4,
                    0,
                    0,
                    img.len() as int,
                );
            },
            None => {},
        }
        lemma_tables_in_image_concat(
            detected_tables(img, sections, n - 1, text_va, text_size),
            section_tables(img, sec, text_va, text_size),
            img.len() as int,
        );
    }
}

/// The entries of tables that lie within the image lie within the image.
pub proof fn lemma_table_patches_in_image(
    sections: Seq<SectionModel>,
    tables: Seq<JumpTable>,
    n: int,
    len: int,
)
    requires
        0 <= n <= tables.len(),
        tables_in_image(tables, len),
        len <= usize::MAX,
    ensures
        patches_in_image(table_patches(sections, tables, n), len),
    decreases n,
{
    if n > 0 {
        lemma_table_patches_in_image(sections, tables, n - 1, len);
        let t = tables[n - 1];
        let one = Seq::new(t.count as nat, |i: int| table_field(sections, t, i));
        assert(patches_in_image(one, len));
        lemma_patches_in_image_concat(table_patches(sections, tables, n - 1), one, len);
    }
}

/// The labels that sections give are categories, one for each byte.
pub proof fn lemma_section_labels_valid(len: int, sections: Seq<SectionModel>, n: int)
    requires
        0 <= len,
    ensures
        valid_labels(section_labels(len, sections, n)),
        section_labels(len, sections, n).len() == len,
    decreases n,
{
    if n > 0 {
        lemma_section_labels_valid(len, sections, n - 1);
    }
}

/// Marking jump tables keeps the labels categories, one for each byte.
pub proof fn lemma_table_labels_valid(labels: Seq<u8>, tables: Seq<JumpTable>, n: int)
    requires
        valid_labels(labels),
    ensures
        valid_labels(table_labels(labels, tables, n)),
        table_labels(labels, tables, n).len() == labels.len(),
    decreases n,
{
    if n > 0 {
        lemma_table_labels_valid(labels, tables, n - 1);
    }
}

/// The labels of an image are categories, one for each byte.
pub proof fn lemma_image_labels_valid(
    len: int,
    object: Option<ObjectModel>,
    tables: Seq<JumpTable>,
)
    requires
        0 <= len,
    ensures
        valid_labels(image_labels(len, object, tables)),
        image_labels(len, object, tables).len() == len,
{
    let by_section = match object {
        Some(o) => section_labels(len, o.sections, o.sections.len() as int),
        None => Seq::new(len as nat, |k: int| crate::category::CAT_OTHER),
    };
    match object {
        Some(o) => lemma_section_labels_valid(len, o.sections, o.sections.len() as int),
        None => {},
    }
    lemma_table_labels_valid(by_section, tables, tables.len() as int);
}

} // verus!
