//! The stream router: every byte of the image is labelled with a category,
//! the labels are written down as a run-length control stream, and the bytes
//! are copied to one stream per category. The inverse puts the image back
//! together from the control stream and the category streams.

use crate::category::{CAT_COUNT, CAT_JT4, CAT_OTHER};
use crate::error::DecodeError;
use crate::image::{
    load_object, loaded_object, section_range, ObjectInfo, ObjectModel, SectionModel,
};
use crate::jump::JumpTable;
use crate::names::{category_of, section_category};
use crate::router_laws::lemma_streams_share_image;
use crate::varint::{
    lemma_varint_advances, read_varint, varint_bytes, varint_decode, write_varint,
};
use vstd::prelude::*;

verus! {

/// The labels after the bytes of one section were given its category. A
/// section without bytes in the file, or with a range that leaves the
/// image, labels nothing.
pub open spec fn section_labelled(labels: Seq<u8>, sec: SectionModel) -> Seq<u8> {
    match sec.file_range {
        Some((off, size)) => if off + size <= labels.len() {
            Seq::new(
                labels.len(),
                |k: int|
                    if off <= k < off + size {
                        category_of(sec)
                    } else {
                        labels[k]
                    },
            )
        } else {
            labels
        },
        None => labels,
    }
}

/// The labels of an image of `len` bytes after the first `n` sections: all
/// bytes start as OTHER, and a later section overrides an earlier one.
pub open spec fn section_labels(len: int, sections: Seq<SectionModel>, n: int) -> Seq<u8>
    decreases n,
{
    if n <= 0 {
        Seq::new(len as nat, |k: int| CAT_OTHER)
    } else {
        section_labelled(section_labels(len, sections, n - 1), sections[n - 1])
    }
}

/// The labels after the bytes of one jump table were marked, whatever they
/// were before.
pub open spec fn table_labelled(labels: Seq<u8>, table: JumpTable) -> Seq<u8> {
    Seq::new(
        labels.len(),
        |k: int|
            if table.fo <= k < table.fo + 4 * table.count {
                CAT_JT4
            } else {
                labels[k]
            },
    )
}

/// The labels after the first `n` jump tables were marked.
pub open spec fn table_labels(labels: Seq<u8>, tables: Seq<JumpTable>, n: int) -> Seq<u8>
    decreases n,
{
    if n <= 0 {
        labels
    } else {
        table_labelled(table_labels(labels, tables, n - 1), tables[n - 1])
    }
}

/// The label of every byte of an image of `len` bytes: by section, then by
/// jump table; all OTHER where there is no object.
pub open spec fn image_labels(
    len: int,
    object: Option<ObjectModel>,
    tables: Seq<JumpTable>,
) -> Seq<u8> {
    let by_section = match object {
        Some(o) => section_labels(len, o.sections, o.sections.len() as int),
        None => Seq::new(len as nat, |k: int| CAT_OTHER),
    };
    table_labels(by_section, tables, tables.len() as int)
}

/// Whether every label is one of the fifteen categories.
pub open spec fn valid_labels(labels: Seq<u8>) -> bool {
    forall|k: int| 0 <= k < labels.len() ==> #[trigger] labels[k] < 15
}

/// The word that stands for a run in the control stream: the category in
/// the low four bits, the count above them.
pub open spec fn run_word(cat: u8, count: u64) -> u64 {
    (count << 4) | (cat as u64)
}

/// The control stream for the labels from `i` on, when a run of `count`
/// labels `cur` is open before `i`: adjacent equal labels are one run.
pub open spec fn runs_from(labels: Seq<u8>, i: int, cur: u8, count: u64) -> Seq<u8>
    decreases labels.len() - i,
{
    if i < 0 || i >= labels.len() {
        varint_bytes(run_word(cur, count))
    } else if labels[i] == cur {
        runs_from(labels, i + 1, cur, (count + 1) as u64)
    } else {
        varint_bytes(run_word(cur, count)) + runs_from(labels, i + 1, labels[i], 1)
    }
}

/// The run-length control stream of a label vector; empty for no labels.
pub open spec fn runs_bytes(labels: Seq<u8>) -> Seq<u8> {
    if labels.len() == 0 {
        Seq::empty()
    } else {
        runs_from(labels, 1, labels[0], 1)
    }
}

/// The stream of category `cat` over the first `n` bytes of the image: the
/// bytes with that label, in image order.
pub open spec fn stream_of(img: Seq<u8>, labels: Seq<u8>, cat: int, n: int) -> Seq<u8>
    decreases n,
{
    if n <= 0 {
        Seq::empty()
    } else if labels[n - 1] == cat {
        stream_of(img, labels, cat, n - 1).push(img[n - 1])
    } else {
        stream_of(img, labels, cat, n - 1)
    }
}

/// The fifteen category streams of an image.
pub open spec fn streams_of(img: Seq<u8>, labels: Seq<u8>) -> Seq<Seq<u8>> {
    Seq::new(15, |c: int| stream_of(img, labels, c, img.len() as int))
}

/// The lengths of the streams of the categories below `cat`, added up.
pub open spec fn streams_total(streams: Seq<Seq<u8>>, cat: int) -> int
    decreases cat,
{
    if cat <= 0 {
        0
    } else {
        streams_total(streams, cat - 1) + streams[cat - 1].len()
    }
}

/// The views of the streams of a vector of streams.
pub open spec fn stream_views(streams: Seq<Vec<u8>>) -> Seq<Seq<u8>> {
    Seq::new(streams.len(), |c: int| streams[c]@)
}

/// Labels the bytes of an image of `len` bytes by the sections of `obj`.
pub fn label_sections(len: usize, obj: &ObjectInfo) -> (labels: Vec<u8>)
    ensures
        labels@ == section_labels(len as int, obj@.sections, obj@.sections.len() as int),
        labels@.len() == len,
        valid_labels(labels@),
{
    let mut labels: Vec<u8> = vec![CAT_OTHER; len];
    proof {
        assert(labels@ =~= section_labels(len as int, obj@.sections, 0));
    }
    let mut i: usize = 0;
    while i < obj.sections.len()
        invariant
            i <= obj.sections.len(),
            labels@.len() == len,
            labels@ == section_labels(len as int, obj@.sections, i as int),
            valid_labels(labels@),
        decreases obj.sections.len() - i,
    {
        let sec = &obj.sections[i];
        assert(sec@ == obj@.sections[i as int]);
        let ghost before = labels@;
        match section_range(sec, len) {
            Some((off, size)) => {
                let cat = section_category(sec);
                let mut k: usize = off;
                while k < off + size
                    invariant
                        off <= k <= off + size,
                        off + size <= len,
                        labels@.len() == len,
                        before.len() == len,
                        cat < 15,
                        valid_labels(before),
                        forall|j: int|
                            0 <= j < len ==> labels@[j] == (if off <= j < k {
                                cat
                            } else {
                                before[j]
                            }),
                    decreases off + size - k,
                {
                    labels[k] = cat;
                    k = k + 1;
                }
                proof {
                    assert(labels@ =~= section_labelled(before, sec@));
                }
            },
            None => {},
        }
        i = i + 1;
    }
    labels
}

/// Marks the bytes of the jump tables in the labels.
pub fn label_tables(labels: &mut Vec<u8>, tables: &[JumpTable])
    requires
        valid_labels(old(labels)@),
    ensures
        final(labels)@ == table_labels(old(labels)@, tables@, tables@.len() as int),
        final(labels)@.len() == old(labels)@.len(),
        valid_labels(final(labels)@),
{
    let len = labels.len();
    let mut t: usize = 0;
    while t < tables.len()
        invariant
            t <= tables.len(),
            labels@.len() == len,
            len == old(labels)@.len(),
            labels@ == table_labels(old(labels)@, tables@, t as int),
            valid_labels(labels@),
        decreases tables.len() - t,
    {
        let table = tables[t];
        let ghost before = labels@;
        if table.fo < len {
            let room = (len - table.fo) / 4;
            let end: usize = if table.count > room {
                len
            } else {
                table.fo + 4 * table.count
            };
            let mut k: usize = table.fo;
            while k < end
                invariant
                    table.fo <= k <= end,
                    end <= len,
                    labels@.len() == len,
                    before.len() == len,
                    valid_labels(before),
                    forall|j: int|
                        0 <= j < len ==> labels@[j] == (if table.fo <= j < k {
                            CAT_JT4
                        } else {
                            before[j]
                        }),
                decreases end - k,
            {
                labels[k] = CAT_JT4;
                k = k + 1;
            }
        }
        proof {
            assert(labels@ =~= table_labelled(before, table));
        }
        t = t + 1;
    }
}

/// Writes the run-length control stream of a label vector.
pub fn encode_runs(labels: &[u8]) -> (runs: Vec<u8>)
    ensures
        runs@ == runs_bytes(labels@),
{
    let mut runs: Vec<u8> = Vec::new();
    if labels.len() == 0 {
        return runs;
    }
    let mut cur: u8 = labels[0];
    let mut count: u64 = 1;
    let mut i: usize = 1;
    while i < labels.len()
        invariant
            1 <= i <= labels.len(),
            1 <= count <= i,
            runs@ + runs_from(labels@, i as int, cur, count) == runs_bytes(labels@),
        decreases labels.len() - i,
    {
        let cat = labels[i];
        if cat == cur {
            count = count + 1;
        } else {
            let ghost before = runs@;
            let ghost rest = runs_from(labels@, i + 1, cat, 1);
            write_varint(&mut runs, (count << 4) | (cur as u64));
            proof {
                assert((before + varint_bytes(run_word(cur, count))) + rest =~= before + (
                varint_bytes(run_word(cur, count)) + rest));
            }
            cur = cat;
            count = 1;
        }
        i = i + 1;
    }
    write_varint(&mut runs, (count << 4) | (cur as u64));
    runs
}

/// Copies the bytes of the image to the stream of their label.
pub fn fill_streams(img: &[u8], labels: &[u8]) -> (streams: Vec<Vec<u8>>)
    requires
        labels@.len() == img@.len(),
        valid_labels(labels@),
    ensures
        streams@.len() == 15,
        stream_views(streams@) == streams_of(img@, labels@),
{
    let mut streams: Vec<Vec<u8>> = Vec::new();
    let mut c: usize = 0;
    while c < CAT_COUNT
        invariant
            c <= 15,
            streams@.len() == c,
            forall|j: int| 0 <= j < c ==> (#[trigger] streams@[j])@ == Seq::<u8>::empty(),
        decreases 15 - c,
    {
        streams.push(Vec::new());
        c = c + 1;
    }
    let mut i: usize = 0;
    while i < img.len()
        invariant
            i <= img.len(),
            labels@.len() == img@.len(),
            valid_labels(labels@),
            streams@.len() == 15,
            forall|j: int|
                0 <= j < 15 ==> (#[trigger] streams@[j])@ == stream_of(img@, labels@, j, i as int),
        decreases img.len() - i,
    {
        let cat = labels[i] as usize;
        assert(labels@[i as int] < 15);
        let b = img[i];
        streams[cat].push(b);
        i = i + 1;
    }
    proof {
        assert(stream_views(streams@) =~= streams_of(img@, labels@));
    }
    streams
}

/// Labels the image and splits it: returns the control stream and the
/// fifteen category streams.
pub fn route(
    file_data: &[u8],
    obj: Option<&ObjectInfo>,
    jump_tables: &[JumpTable],
) -> (r: (Vec<u8>, Vec<Vec<u8>>))
    ensures
        ({
            let model = match obj {
                Some(o) => Some(o@),
                None => None,
            };
            let labels = image_labels(file_data@.len() as int, model, jump_tables@);
            &&& r.0@ == runs_bytes(labels)
            &&& r.1@.len() == 15
            &&& stream_views(r.1@) == streams_of(file_data@, labels)
            &&& valid_labels(labels)
            &&& labels.len() == file_data@.len()
        }),
        streams_total(stream_views(r.1@), 15) == file_data@.len(),
{
    let mut labels = match obj {
        Some(o) => label_sections(file_data.len(), o),
        None => {
            let l = vec![CAT_OTHER; file_data.len()];
            proof {
                assert(l@ =~= Seq::new(file_data@.len(), |k: int| CAT_OTHER));
            }
            l
        },
    };
    label_tables(&mut labels, jump_tables);
    let runs = encode_runs(labels.as_slice());
    let streams = fill_streams(file_data, labels.as_slice());
    proof {
        lemma_streams_share_image(file_data@, labels@);
    }
    (runs, streams)
}

/// The labels of the image `data` given its jump tables, the object being
/// read from the image itself.
pub open spec fn routed_labels(data: Seq<u8>, tables: Seq<JumpTable>) -> Seq<u8> {
    image_labels(data.len() as int, loaded_object(data), tables)
}

/// The stream router: reads the object in `file_data`, labels every byte and
/// returns the control stream and the fifteen category streams.
pub fn split_streams(file_data: &[u8], jump_tables: &[JumpTable]) -> (r: (Vec<u8>, Vec<Vec<u8>>))
    ensures
        r.0@ == runs_bytes(routed_labels(file_data@, jump_tables@)),
        r.1@.len() == 15,
        stream_views(r.1@) == streams_of(file_data@, routed_labels(file_data@, jump_tables@)),
        streams_total(stream_views(r.1@), 15) == file_data@.len(),
{
    match load_object(file_data) {
        Some(obj) => route(file_data, Some(&obj), jump_tables),
        None => route(file_data, None, jump_tables),
    }
}

/// Whether every stream was used up to its end.
pub open spec fn all_consumed(cursors: Seq<int>, streams: Seq<Seq<u8>>) -> bool {
    forall|c: int| 0 <= c < streams.len() ==> #[trigger] cursors[c] == streams[c].len()
}

/// The image that the control stream `runs` assembles from the category
/// streams, from byte `pos` of the control stream on, when `cursors` says
/// how far each stream was used and `out` holds the bytes assembled so far.
///
/// Each run moves its count of bytes from the stream of its category to the
/// image. A run of an unknown category, a run that would make the image
/// longer than `orig_len`, and a run for which its stream is too short are
/// errors; so is a stream that is not used up when the control stream ends.
/// An image that the runs do not fill is filled up with zero bytes.
pub open spec fn joined(
    runs: Seq<u8>,
    streams: Seq<Seq<u8>>,
    orig_len: int,
    pos: int,
    cursors: Seq<int>,
    out: Seq<u8>,
) -> Result<Seq<u8>, DecodeError>
    decreases runs.len() - pos,
{
    if pos < 0 || pos >= runs.len() {
        if all_consumed(cursors, streams) {
            Ok(out + Seq::new((orig_len - out.len()) as nat, |k: int| 0u8))
        } else {
            Err(DecodeError::StreamExtraBytes)
        }
    } else {
        match varint_decode(runs, pos) {
            Err(e) => Err(e),
            Ok((val, next)) => {
                proof {
                    lemma_varint_advances(runs, pos);
                }
                let cat = (val & 15) as int;
                let count = (val >> 4) as int;
                if cat >= 15 {
                    Err(DecodeError::BadCategory)
                } else if out.len() + count > orig_len {
                    Err(DecodeError::RunsExceedLength)
                } else if cursors[cat] + count > streams[cat].len() {
                    Err(DecodeError::StreamUnderflow)
                } else {
                    joined(
                        runs,
                        streams,
                        orig_len,
                        next,
                        cursors.update(cat, cursors[cat] + count),
                        out + streams[cat].subrange(cursors[cat], cursors[cat] + count),
                    )
                }
            },
        }
    }
}

/// The image that a control stream assembles from the category streams.
pub open spec fn joined_image(runs: Seq<u8>, streams: Seq<Seq<u8>>, orig_len: int) -> Result<
    Seq<u8>,
    DecodeError,
> {
    joined(runs, streams, orig_len, 0, Seq::new(streams.len(), |c: int| 0int), Seq::empty())
}

/// The cursors as mathematical integers.
pub open spec fn cursor_values(cursors: Seq<usize>) -> Seq<int> {
    Seq::new(cursors.len(), |c: int| cursors[c] as int)
}

/// Puts an image of `orig_len` bytes together from the control stream and
/// the fifteen category streams.
pub fn join_streams(runs_data: &[u8], streams: &Vec<Vec<u8>>, orig_len: usize) -> (r: Result<
    Vec<u8>,
    DecodeError,
>)
    requires
        streams@.len() == 15,
    ensures
        match joined_image(runs_data@, stream_views(streams@), orig_len as int) {
            Ok(img) => r.is_ok() && r.unwrap()@ == img && img.len() == orig_len,
            Err(e) => r == Err::<Vec<u8>, DecodeError>(e),
        },
{
    let mut out: Vec<u8> = Vec::new();
    let mut cursors: Vec<usize> = vec![0usize; CAT_COUNT];
    let mut run_pos: usize = 0;
    let ghost views = stream_views(streams@);
    proof {
        assert(cursor_values(cursors@) =~= Seq::new(15, |c: int| 0int));
    }
    while run_pos < runs_data.len()
        invariant
            streams@.len() == 15,
            cursors@.len() == 15,
            views == stream_views(streams@),
            out@.len() <= orig_len,
            forall|c: int| 0 <= c < 15 ==> #[trigger] cursors@[c] <= streams@[c]@.len(),
            joined_image(runs_data@, views, orig_len as int) == joined(
                runs_data@,
                views,
                orig_len as int,
                run_pos as int,
                cursor_values(cursors@),
                out@,
            ),
        decreases runs_data.len() - run_pos,
    {
        proof {
            lemma_varint_advances(runs_data@, run_pos as int);
        }
        let val = match read_varint(runs_data, &mut run_pos) {
            Ok(v) => v,
            Err(e) => {
                return Err(e);
            },
        };
        assert(val & 15 < 16) by (bit_vector);
        let cat = (val & 15) as usize;
        let count: u64 = val >> 4;
        if cat >= CAT_COUNT {
            return Err(DecodeError::BadCategory);
        }
        if count > (orig_len - out.len()) as u64 {
            return Err(DecodeError::RunsExceedLength);
        }
        let c = cursors[cat];
        let stream = &streams[cat];
        assert(views[cat as int] == stream@);
        if count > (stream.len() - c) as u64 {
            return Err(DecodeError::StreamUnderflow);
        }
        let n = count as usize;
        let ghost before = out@;
        let mut k: usize = 0;
        while k < n
            invariant
                k <= n,
                c + n <= stream.len(),
                before.len() + n <= orig_len,
                out@ == before + stream@.subrange(c as int, c + k),
            decreases n - k,
        {
            out.push(stream[c + k]);
            proof {
                assert(stream@.subrange(c as int, c + k + 1) =~= stream@.subrange(
                    c as int,
                    c + k,
                ).push(stream@[c + k]));
            }
            k = k + 1;
        }
        let ghost old_cursors = cursor_values(cursors@);
        cursors[cat] = c + n;
        proof {
            assert(cursor_values(cursors@) =~= old_cursors.update(cat as int, c + n));
        }
    }
    let mut cat: usize = 0;
    while cat < CAT_COUNT
        invariant
            cat <= 15,
            streams@.len() == 15,
            cursors@.len() == 15,
            views == stream_views(streams@),
            run_pos >= runs_data.len(),
            out@.len() <= orig_len,
            forall|c: int| 0 <= c < cat ==> #[trigger] cursors@[c] == streams@[c]@.len(),
            joined_image(runs_data@, views, orig_len as int) == joined(
                runs_data@,
                views,
                orig_len as int,
                run_pos as int,
                cursor_values(cursors@),
                out@,
            ),
        decreases 15 - cat,
    {
        if cursors[cat] != streams[cat].len() {
            proof {
                assert(cursor_values(cursors@)[cat as int] != views[cat as int].len());
            }
            return Err(DecodeError::StreamExtraBytes);
        }
        cat = cat + 1;
    }
    proof {
        assert(all_consumed(cursor_values(cursors@), views)) by {
            assert forall|c: int| 0 <= c < views.len() implies #[trigger] cursor_values(
                cursors@,
            )[c] == views[c].len() by {
                assert(cursors@[c] == streams@[c]@.len());
            }
        }
    }
    let ghost assembled = out@;
    let mut k: usize = out.len();
    while k < orig_len
        invariant
            k <= orig_len,
            out@.len() == k,
            assembled.len() <= k,
            out@ == assembled + Seq::new((k - assembled.len()) as nat, |j: int| 0u8),
        decreases orig_len - k,
    {
        out.push(0u8);
        proof {
            assert(out@ =~= assembled + Seq::new((k + 1 - assembled.len()) as nat, |j: int| 0u8));
        }
        k = k + 1;
    }
    proof {
        assert(assembled + Seq::new(0nat, |j: int| 0u8) =~= assembled);
    }
    Ok(out)
}

} // verus!
