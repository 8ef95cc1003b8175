//! What holds of the router: the category streams share out the image, the
//! control stream describes the labels, and joining undoes splitting.

use crate::error::DecodeError;
use crate::router::{
    all_consumed, joined, joined_image, run_word, runs_bytes, runs_from, stream_of, streams_of,
    streams_total, valid_labels,
};
use crate::varint::{lemma_varint_advances, lemma_varint_round_trip, varint_bytes, varint_decode};
use vstd::prelude::*;

verus! {

/// The number of the first `n` labels that lie below `cat`.
pub open spec fn labels_below(labels: Seq<u8>, n: int, cat: int) -> int
    decreases n,
{
    if n <= 0 {
        0
    } else {
        labels_below(labels, n - 1, cat) + if labels[n - 1] < cat {
            1int
        } else {
            0int
        }
    }
}

/// No label lies below 0, and valid labels all lie below 15.
proof fn lemma_labels_below_bounds(labels: Seq<u8>, n: int)
    requires
        0 <= n <= labels.len(),
    ensures
        labels_below(labels, n, 0) == 0,
        valid_labels(labels) ==> labels_below(labels, n, 15) == n,
    decreases n,
{
    if n > 0 {
        lemma_labels_below_bounds(labels, n - 1);
    }
}

/// The stream of one category holds, of the first `n` bytes, as many as
/// there are labels of that category.
proof fn lemma_stream_len(img: Seq<u8>, labels: Seq<u8>, n: int, cat: int)
    requires
        0 <= n <= img.len(),
        labels.len() == img.len(),
        0 <= cat,
    ensures
        stream_of(img, labels, cat, n).len() == labels_below(labels, n, cat + 1) - labels_below(
            labels,
            n,
            cat,
        ),
    decreases n,
{
    if n > 0 {
        lemma_stream_len(img, labels, n - 1, cat);
    }
}

/// The streams of the categories below `cat` hold as many bytes as there
/// are labels below `cat`.
proof fn lemma_streams_total(img: Seq<u8>, labels: Seq<u8>, cat: int)
    requires
        labels.len() == img.len(),
        0 <= cat <= 15,
    ensures
        streams_total(streams_of(img, labels), cat) == labels_below(
            labels,
            img.len() as int,
            cat,
        ),
    decreases cat,
{
    if cat > 0 {
        lemma_streams_total(img, labels, cat - 1);
        lemma_stream_len(img, labels, img.len() as int, cat - 1);
    } else {
        lemma_labels_below_bounds(labels, img.len() as int);
    }
}

/// The category streams share out the image: for valid labels their
/// lengths add up to the length of the image.
pub proof fn lemma_streams_share_image(img: Seq<u8>, labels: Seq<u8>)
    requires
        labels.len() == img.len(),
        valid_labels(labels),
    ensures
        streams_total(streams_of(img, labels), 15) == img.len(),
{
    lemma_streams_total(img, labels, 15);
    lemma_labels_below_bounds(labels, img.len() as int);
}

/// A run as the control stream holds it: category and count.
pub struct Run {
    pub cat: int,
    pub count: int,
}

/// The runs that the control stream `runs` holds from byte `pos` on.
pub open spec fn run_list(runs: Seq<u8>, pos: int) -> Result<Seq<Run>, DecodeError>
    decreases runs.len() - pos,
{
    if pos < 0 || pos >= runs.len() {
        Ok(Seq::empty())
    } else {
        match varint_decode(runs, pos) {
            Err(e) => Err(e),
            Ok((val, next)) => {
                proof {
                    lemma_varint_advances(runs, pos);
                }
                match run_list(runs, next) {
                    Err(e) => Err(e),
                    Ok(rest) => Ok(
                        seq![Run { cat: (val & 15) as int, count: (val >> 4) as int }] + rest,
                    ),
                }
            },
        }
    }
}

/// The labels that a list of runs stands for.
pub open spec fn run_labels(list: Seq<Run>) -> Seq<u8>
    decreases list.len(),
{
    if list.len() == 0 {
        Seq::empty()
    } else {
        Seq::new(list[0].count as nat, |k: int| list[0].cat as u8) + run_labels(
            list.subrange(1, list.len() as int),
        )
    }
}

/// The counts of a list of runs, added up.
pub open spec fn run_total(list: Seq<Run>) -> int
    decreases list.len(),
{
    if list.len() == 0 {
        0
    } else {
        list[0].count + run_total(list.subrange(1, list.len() as int))
    }
}

/// Whether every run of the list names one of the fifteen categories.
pub open spec fn run_categories_valid(list: Seq<Run>) -> bool {
    forall|k: int| 0 <= k < list.len() ==> 0 <= (#[trigger] list[k]).cat < 15
}

/// Category and count come back from the word of a run.
proof fn lemma_run_word(cat: u8, count: u64)
    requires
        cat < 16,
        count < 0x1000_0000_0000_0000,
    ensures
        run_word(cat, count) & 15 == cat,
        run_word(cat, count) >> 4 == count,
{
    assert(cat < 16 && count < 0x1000_0000_0000_0000 ==> ((count << 4) | (cat as u64)) & 15
        == cat as u64 && ((count << 4) | (cat as u64)) >> 4 == count) by (bit_vector);
}

/// The runs of the control stream that is written for the labels from `i`
/// on, `count` labels `cur` being open: they stand for the open labels and
/// those from `i` on.
proof fn lemma_run_list_from(
    before: Seq<u8>,
    labels: Seq<u8>,
    i: int,
    cur: u8,
    count: u64,
)
    requires
        1 <= count <= i <= labels.len(),
        labels.len() < 0x1000_0000_0000_0000,
        valid_labels(labels),
        cur < 15,
        forall|k: int| i - count <= k < i ==> labels[k] == cur,
    ensures
        ({
            let whole = before + runs_from(labels, i, cur, count);
            let list = run_list(whole, before.len() as int);
            &&& list is Ok
            &&& run_labels(list->Ok_0) == labels.subrange(i - count, labels.len() as int)
            &&& run_total(list->Ok_0) == labels.len() - (i - count)
            &&& run_categories_valid(list->Ok_0)
        }),
    decreases labels.len() - i,
{
    let word = run_word(cur, count);
    let vb = varint_bytes(word);
    let whole = before + runs_from(labels, i, cur, count);
    lemma_run_word(cur, count);
    crate::varint::lemma_varint_len(word);
    if i >= labels.len() {
        lemma_varint_round_trip(word, before, Seq::empty());
        assert(before + vb + Seq::<u8>::empty() =~= whole);
        let head = Run { cat: cur as int, count: count as int };
        let rest = Seq::<Run>::empty();
        assert(run_list(whole, whole.len() as int) == Ok::<Seq<Run>, DecodeError>(rest));
        let list = seq![head] + rest;
        assert(list.subrange(1, list.len() as int) =~= rest);
        assert(list[0] == head);
        assert(run_labels(rest) =~= Seq::<u8>::empty());
        assert(Seq::new(count as nat, |k: int| cur) =~= labels.subrange(
            i - count,
            labels.len() as int,
        ));
        assert(run_labels(list) =~= labels.subrange(i - count, labels.len() as int));
        assert(run_total(rest) == 0);
        assert(run_total(list) == count);
    } else if labels[i] == cur {
        lemma_run_list_from(before, labels, i + 1, cur, (count + 1) as u64);
    } else {
        let tail = runs_from(labels, i + 1, labels[i], 1);
        lemma_varint_round_trip(word, before, tail);
        assert(before + vb + tail =~= whole);
        lemma_run_list_from(before + vb, labels, i + 1, labels[i], 1);
        assert((before + vb) + tail =~= whole);
        let head = Run { cat: cur as int, count: count as int };
        let rest = run_list(whole, (before.len() + vb.len()) as int)->Ok_0;
        let list = seq![head] + rest;
        assert(list.subrange(1, list.len() as int) =~= rest);
        assert(list[0] == head);
        assert(run_labels(rest) == labels.subrange(i, labels.len() as int));
        assert(Seq::new(count as nat, |k: int| cur) =~= labels.subrange(i - count, i));
        assert(labels.subrange(i - count, i) + labels.subrange(i, labels.len() as int)
            =~= labels.subrange(i - count, labels.len() as int));
        assert(run_labels(list) == Seq::new(count as nat, |k: int| cur) + run_labels(rest));
        assert(run_total(list) == count + run_total(rest));
        assert(run_categories_valid(list)) by {
            assert forall|k: int| 0 <= k < list.len() implies 0 <= (#[trigger] list[k]).cat
                < 15 by {
                if k > 0 {
                    assert(list[k] == rest[k - 1]);
                }
            }
        }
    }
}

/// The control stream describes the labels: read back, its runs stand for
/// the label vector, their counts add up to its length, and their
/// categories are among the fifteen.
pub proof fn lemma_runs_describe_labels(labels: Seq<u8>)
    requires
        valid_labels(labels),
        labels.len() < 0x1000_0000_0000_0000,
    ensures
        run_list(runs_bytes(labels), 0) is Ok,
        run_labels(run_list(runs_bytes(labels), 0)->Ok_0) == labels,
        run_total(run_list(runs_bytes(labels), 0)->Ok_0) == labels.len(),
        run_categories_valid(run_list(runs_bytes(labels), 0)->Ok_0),
{
    if labels.len() == 0 {
        assert(run_labels(Seq::<Run>::empty()) =~= labels);
    } else {
        lemma_run_list_from(Seq::empty(), labels, 1, labels[0], 1);
        assert(Seq::<u8>::empty() + runs_from(labels, 1, labels[0], 1) =~= runs_bytes(labels));
        assert(labels.subrange(0, labels.len() as int) =~= labels);
    }
}

/// How far each stream is used when the first `n` bytes of the image are
/// assembled.
pub open spec fn cursors_at(img: Seq<u8>, labels: Seq<u8>, n: int) -> Seq<int> {
    Seq::new(15, |c: int| stream_of(img, labels, c, n).len() as int)
}

/// Over a stretch of equal labels only the stream of that label grows, by
/// the bytes of the stretch.
proof fn lemma_stream_stretch(img: Seq<u8>, labels: Seq<u8>, cat: int, from: int, to: int, cur: u8)
    requires
        0 <= from <= to <= img.len(),
        labels.len() == img.len(),
        forall|k: int| from <= k < to ==> labels[k] == cur,
    ensures
        stream_of(img, labels, cat, to) == stream_of(img, labels, cat, from) + (if cat == cur {
            img.subrange(from, to)
        } else {
            Seq::empty()
        }),
    decreases to - from,
{
    if from < to {
        lemma_stream_stretch(img, labels, cat, from, to - 1, cur);
        if cat == cur {
            assert(img.subrange(from, to) =~= img.subrange(from, to - 1).push(img[to - 1]));
        }
        assert(stream_of(img, labels, cat, to) =~= stream_of(img, labels, cat, from) + (if cat
            == cur {
            img.subrange(from, to)
        } else {
            Seq::empty()
        }));
    } else {
        assert(img.subrange(from, to) =~= Seq::<u8>::empty());
        assert(stream_of(img, labels, cat, from) + Seq::<u8>::empty() =~= stream_of(
            img,
            labels,
            cat,
            from,
        ));
    }
}

/// Assembling the run that is open before `i`, and the runs behind it,
/// completes the image.
proof fn lemma_joined_from(
    before: Seq<u8>,
    img: Seq<u8>,
    labels: Seq<u8>,
    i: int,
    cur: u8,
    count: u64,
)
    requires
        1 <= count <= i <= labels.len(),
        labels.len() == img.len(),
        labels.len() < 0x1000_0000_0000_0000,
        valid_labels(labels),
        cur < 15,
        forall|k: int| i - count <= k < i ==> labels[k] == cur,
    ensures
        joined(
            before + runs_from(labels, i, cur, count),
            streams_of(img, labels),
            img.len() as int,
            before.len() as int,
            cursors_at(img, labels, i - count),
            img.subrange(0, i - count),
        ) == Ok::<Seq<u8>, DecodeError>(img),
    decreases labels.len() - i,
{
    let len = img.len() as int;
    let start = i - count;
    let word = run_word(cur, count);
    let vb = varint_bytes(word);
    let whole = before + runs_from(labels, i, cur, count);
    let streams = streams_of(img, labels);
    let cursors = cursors_at(img, labels, start);
    lemma_run_word(cur, count);
    crate::varint::lemma_varint_len(word);
    if i < len && labels[i] == cur {
        lemma_joined_from(before, img, labels, i + 1, cur, (count + 1) as u64);
    } else {
        // The open run is closed here.
        let tail = if i >= len {
            Seq::<u8>::empty()
        } else {
            runs_from(labels, i + 1, labels[i], 1)
        };
        lemma_varint_round_trip(word, before, tail);
        assert(before + vb + tail =~= whole);
        let next = before.len() + vb.len();
        let c = cur as int;
        lemma_stream_stretch(img, labels, c, start, i, cur);
        assert(stream_of(img, labels, c, len).len() >= stream_of(img, labels, c, i).len()) by {
            lemma_stream_grows(img, labels, c, i, len);
        }
        let used = cursors[c];
        let moved = streams[c].subrange(used, used + count);
        assert(moved =~= img.subrange(start, i)) by {
            lemma_stream_prefix(img, labels, c, i, len);
            let upto_i = stream_of(img, labels, c, i);
            let upto_start = stream_of(img, labels, c, start);
            assert(upto_i == upto_start + img.subrange(start, i));
            assert(upto_i.len() == used + count);
            assert(streams[c] == stream_of(img, labels, c, len));
            assert forall|k: int| 0 <= k < count implies moved[k] == img.subrange(start, i)[k] by {
                assert(streams[c].subrange(0, upto_i.len() as int)[used + k] == upto_i[used + k]);
            }
        }
        let cursors2 = cursors.update(c, used + count);
        assert(cursors2 =~= cursors_at(img, labels, i)) by {
            assert forall|d: int| 0 <= d < 15 implies cursors2[d] == cursors_at(
                img,
                labels,
                i,
            )[d] by {
                lemma_stream_stretch(img, labels, d, start, i, cur);
            }
        }
        let out = img.subrange(0, start);
        let out2 = out + moved;
        assert(out2 =~= img.subrange(0, i));
        assert(varint_decode(whole, before.len() as int) == Ok::<(u64, int), DecodeError>(
            (word, next as int),
        ));
        assert((word & 15) as int == c && (word >> 4) as int == count as int);
        assert(used + count <= streams[c].len()) by {
            lemma_stream_prefix(img, labels, c, i, len);
        }
        assert(joined(whole, streams, len, before.len() as int, cursors, out) == joined(
            whole,
            streams,
            len,
            next as int,
            cursors2,
            out2,
        ));
        if i >= len {
            assert(next == whole.len());
            assert(all_consumed(cursors2, streams));
            assert(out2 + Seq::new((len - out2.len()) as nat, |k: int| 0u8) =~= img);
            assert(joined(whole, streams, len, next as int, cursors2, out2) == Ok::<
                Seq<u8>,
                DecodeError,
            >(img));
        } else {
            lemma_joined_from(before + vb, img, labels, i + 1, labels[i], 1);
            assert((before + vb) + tail =~= whole);
            assert(cursors2 == cursors_at(img, labels, i + 1 - 1));
            assert(out2 == img.subrange(0, i + 1 - 1));
        }
    }
}

/// A stream over more bytes of the image is at least as long.
proof fn lemma_stream_grows(img: Seq<u8>, labels: Seq<u8>, cat: int, from: int, to: int)
    requires
        0 <= from <= to <= img.len(),
        labels.len() == img.len(),
    ensures
        stream_of(img, labels, cat, from).len() <= stream_of(img, labels, cat, to).len(),
    decreases to - from,
{
    if from < to {
        lemma_stream_grows(img, labels, cat, from, to - 1);
    }
}

/// A stream over fewer bytes of the image is the beginning of the stream
/// over more.
proof fn lemma_stream_prefix(img: Seq<u8>, labels: Seq<u8>, cat: int, from: int, to: int)
    requires
        0 <= from <= to <= img.len(),
        labels.len() == img.len(),
    ensures
        stream_of(img, labels, cat, from).len() <= stream_of(img, labels, cat, to).len(),
        stream_of(img, labels, cat, to).subrange(
            0,
            stream_of(img, labels, cat, from).len() as int,
        ) == stream_of(img, labels, cat, from),
    decreases to - from,
{
    if from < to {
        lemma_stream_prefix(img, labels, cat, from, to - 1);
        let a = stream_of(img, labels, cat, from);
        let b = stream_of(img, labels, cat, to - 1);
        let c = stream_of(img, labels, cat, to);
        assert(c.subrange(0, a.len() as int) =~= b.subrange(0, a.len() as int));
    } else {
        let a = stream_of(img, labels, cat, from);
        assert(a.subrange(0, a.len() as int) =~= a);
    }
}

/// Joining undoes splitting: from the control stream and the category
/// streams of an image, the image is put together again.
pub proof fn lemma_join_split(img: Seq<u8>, labels: Seq<u8>)
    requires
        labels.len() == img.len(),
        valid_labels(labels),
        img.len() < 0x1000_0000_0000_0000,
    ensures
        joined_image(runs_bytes(labels), streams_of(img, labels), img.len() as int) == Ok::<
            Seq<u8>,
            DecodeError,
        >(img),
{
    let streams = streams_of(img, labels);
    let zero = Seq::new(streams.len(), |c: int| 0int);
    assert(zero =~= cursors_at(img, labels, 0));
    if img.len() == 0 {
        assert(all_consumed(zero, streams));
        assert(Seq::<u8>::empty() + Seq::new(0nat, |k: int| 0u8) =~= img);
    } else {
        lemma_joined_from(Seq::empty(), img, labels, 1, labels[0], 1);
        assert(Seq::<u8>::empty() + runs_from(labels, 1, labels[0], 1) =~= runs_bytes(labels));
        assert(img.subrange(0, 0) =~= Seq::<u8>::empty());
    }
}

} // verus!
