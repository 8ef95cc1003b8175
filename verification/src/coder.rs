//! The category coder: the filters that prepare a category stream for the
//! entropy coder, the parameters the coder is run with, and the choice
//! between its two outputs.

use crate::category::{
    bswap_cat, category_stride, choose_dict_size, choose_pb, dict_size, position_bits, stride_of,
    swapped, CAT_CODE, CAT_EH, CAT_OTHER,
};
use crate::error::DecodeError;
use crate::router::stream_views;
use crate::shuffle::{shuffle_bytes, shuffled, unshuffle_bytes, unshuffled};
use rayon::iter::{IndexedParallelIterator, IntoParallelRefIterator, ParallelIterator};
use std::io::{Read, Write};
use vstd::prelude::*;
use xz2::read::XzDecoder;
use xz2::stream::{Check, Filters, LzmaOptions, Stream};
use xz2::write::XzEncoder;

verus! {

/// The preset of the entropy coder: the highest level, with the extreme bit.
pub const PRESET: u32 = 0x8000_0009;

/// The .xz stream, without integrity check, that the LZMA2 encoder makes of
/// `data` with the given preset, position bits and dictionary size, and the
/// literal context bits of the preset.
pub uninterp spec fn xz_encoded(data: Seq<u8>, preset: u32, pb: u32, dict_size: u32) -> Seq<u8>;

/// As `xz_encoded`, with `lc` literal context bits.
pub uninterp spec fn xz_encoded_lc(
    data: Seq<u8>,
    preset: u32,
    pb: u32,
    dict_size: u32,
    lc: u32,
) -> Seq<u8>;

/// What the decoder makes of the .xz stream `data`, `None` where it rejects
/// the stream.
pub uninterp spec fn xz_decoded(data: Seq<u8>) -> Option<Seq<u8>>;

/// Whether the encoder accepts the parameters.
pub open spec fn coder_parameters(preset: u32, pb: u32, dict_size: u32, lc: u32) -> bool {
    preset == PRESET && pb <= 4 && lc <= 4 && 0x1000 <= dict_size <= 0x400_0000
}

/// `xz2::stream::LzmaOptions`, `Filters::lzma2`, `Stream::new_stream_encoder`
/// and `xz2::write::XzEncoder`: one LZMA2 filter with the options of the
/// preset, the position bits and the dictionary size; the whole input is
/// written and the stream finished. The output is a function of the input
/// and the options. The crate fails on options that the encoder refuses.
#[verifier::external_body]
fn xz_encode(data: &[u8], preset: u32, pb: u32, dict_size: u32) -> (r: Vec<u8>)
    requires
        coder_parameters(preset, pb, dict_size, 0),
    ensures
        r@ == xz_encoded(data@, preset, pb, dict_size),
{
    let mut opts = LzmaOptions::new_preset(preset).expect("bad preset");
    opts.position_bits(pb).dict_size(dict_size);
    let mut filters = Filters::new();
    filters.lzma2(&opts);
    let stream = Stream::new_stream_encoder(&filters, Check::None).expect("xz encoder");
    let mut enc = XzEncoder::new_stream(Vec::new(), stream);
    enc.write_all(data).unwrap();
    enc.finish().unwrap()
}

/// As `xz_encode`, with `LzmaOptions::literal_context_bits` set to `lc`.
#[verifier::external_body]
fn xz_encode_lc(data: &[u8], preset: u32, pb: u32, dict_size: u32, lc: u32) -> (r: Vec<u8>)
    requires
        coder_parameters(preset, pb, dict_size, lc),
    ensures
        r@ == xz_encoded_lc(data@, preset, pb, dict_size, lc),
{
    let mut opts = LzmaOptions::new_preset(preset).expect("bad preset");
    opts.position_bits(pb).dict_size(dict_size).literal_context_bits(lc);
    let mut filters = Filters::new();
    filters.lzma2(&opts);
    let stream = Stream::new_stream_encoder(&filters, Check::None).expect("xz encoder");
    let mut enc = XzEncoder::new_stream(Vec::new(), stream);
    enc.write_all(data).unwrap();
    enc.finish().unwrap()
}

/// `xz2::read::XzDecoder::new` and `read_to_end`: decodes one .xz stream.
/// What comes out, or that the stream is rejected, is a function of the
/// input.
#[verifier::external_body]
fn xz_decode(data: &[u8]) -> (r: Option<Vec<u8>>)
    ensures
        r.is_some() == xz_decoded(data@).is_some(),
        r.is_some() ==> r.unwrap()@ == xz_decoded(data@).unwrap(),
{
    let mut out = Vec::new();
    XzDecoder::new(data).read_to_end(&mut out).ok()?;
    Some(out)
}

/// A category stream as it is handed to the entropy coder: the integer
/// fields of its records byte-swapped, then the records transposed. The
/// streams of categories without records are not changed.
pub open spec fn filtered(cat: int, s: Seq<u8>) -> Seq<u8> {
    shuffled(swapped(s, cat), stride_of(cat))
}

/// The category stream that was handed to the entropy coder as `s`.
pub open spec fn unfiltered(cat: int, s: Seq<u8>) -> Seq<u8> {
    swapped(unshuffled(s, stride_of(cat)), cat)
}

/// Prepares a category stream for the entropy coder.
pub fn filter_stream(cat: usize, s: &[u8]) -> (r: Vec<u8>)
    ensures
        r@ == filtered(cat as int, s@),
{
    let mut v = vstd::slice::slice_to_vec(s);
    bswap_cat(v.as_mut_slice(), cat);
    shuffle_bytes(v.as_slice(), category_stride(cat))
}

/// Undoes `filter_stream`.
pub fn unfilter_stream(cat: usize, s: &[u8]) -> (r: Vec<u8>)
    ensures
        r@ == unfiltered(cat as int, s@),
{
    let mut v = unshuffle_bytes(s, category_stride(cat));
    bswap_cat(v.as_mut_slice(), cat);
    v
}

/// The filtered streams of all categories.
pub open spec fn all_filtered(streams: Seq<Seq<u8>>) -> Seq<Seq<u8>> {
    Seq::new(streams.len(), |c: int| filtered(c, streams[c]))
}

/// The streams of all categories with the filter undone.
pub open spec fn all_unfiltered(streams: Seq<Seq<u8>>) -> Seq<Seq<u8>> {
    Seq::new(streams.len(), |c: int| unfiltered(c, streams[c]))
}

/// Prepares the streams of all categories for the entropy coder.
pub fn filter_streams(streams: &Vec<Vec<u8>>) -> (r: Vec<Vec<u8>>)
    ensures
        stream_views(r@) == all_filtered(stream_views(streams@)),
        r@.len() == streams@.len(),
{
    let mut out: Vec<Vec<u8>> = Vec::new();
    let mut c: usize = 0;
    while c < streams.len()
        invariant
            c <= streams.len(),
            out@.len() == c,
            forall|j: int| 0 <= j < c ==> (#[trigger] out@[j])@ == filtered(j, streams@[j]@),
        decreases streams.len() - c,
    {
        out.push(filter_stream(c, streams[c].as_slice()));
        c = c + 1;
    }
    proof {
        assert(stream_views(out@) =~= all_filtered(stream_views(streams@)));
    }
    out
}

/// Undoes the filter on the streams of all categories.
pub fn unfilter_streams(streams: &Vec<Vec<u8>>) -> (r: Vec<Vec<u8>>)
    ensures
        stream_views(r@) == all_unfiltered(stream_views(streams@)),
        r@.len() == streams@.len(),
{
    let mut out: Vec<Vec<u8>> = Vec::new();
    let mut c: usize = 0;
    while c < streams.len()
        invariant
            c <= streams.len(),
            out@.len() == c,
            forall|j: int| 0 <= j < c ==> (#[trigger] out@[j])@ == unfiltered(j, streams@[j]@),
        decreases streams.len() - c,
    {
        out.push(unfilter_stream(c, streams[c].as_slice()));
        c = c + 1;
    }
    proof {
        assert(stream_views(out@) =~= all_unfiltered(stream_views(streams@)));
    }
    out
}

/// The shorter of two outputs of the entropy coder, the first where they
/// are equally long.
pub open spec fn shorter_of(first: Seq<u8>, second: Seq<u8>) -> Seq<u8> {
    if second.len() < first.len() {
        second
    } else {
        first
    }
}

/// Keeps the shorter of two outputs, the first where they are equally long.
pub fn pick_shorter(first: Vec<u8>, second: Vec<u8>) -> (r: Vec<u8>)
    ensures
        r@ == shorter_of(first@, second@),
        r@.len() <= first@.len(),
        r@.len() <= second@.len(),
{
    if second.len() < first.len() {
        second
    } else {
        first
    }
}

/// Whether the streams of the category are encoded once, with the literal
/// context bits of the preset.
pub open spec fn encoded_once(cat: int) -> bool {
    cat == CAT_CODE || cat == CAT_EH || cat == CAT_OTHER
}

/// The compressed form of the filtered stream `s` of category `cat`: empty
/// for an empty stream; for code, exception-handling data and unclassified
/// bytes the output of the coder; for the other categories the shorter of
/// its outputs with 3 and with 0 literal context bits.
pub open spec fn category_encoded(cat: int, s: Seq<u8>) -> Seq<u8> {
    if s.len() == 0 {
        Seq::empty()
    } else {
        let pb = position_bits(cat) as u32;
        let dict = dict_size(s.len() as int) as u32;
        if encoded_once(cat) {
            xz_encoded(s, PRESET, pb, dict)
        } else {
            shorter_of(
                xz_encoded_lc(s, PRESET, pb, dict, 3),
                xz_encoded_lc(s, PRESET, pb, dict, 0),
            )
        }
    }
}

/// Runs the entropy coder with the literal context bits of the preset; an
/// empty input gives an empty output.
pub fn compress_xz_tuned(data: &[u8], preset: u32, pb: u32, dict_size: u32) -> (r: Vec<u8>)
    requires
        coder_parameters(preset, pb, dict_size, 0),
    ensures
        r@ == (if data@.len() == 0 {
            Seq::empty()
        } else {
            xz_encoded(data@, preset, pb, dict_size)
        }),
{
    if data.len() == 0 {
        return Vec::new();
    }
    xz_encode(data, preset, pb, dict_size)
}

/// Compresses the filtered stream of one category.
pub fn encode_category(cat: usize, s: &[u8]) -> (r: Vec<u8>)
    ensures
        r@ == category_encoded(cat as int, s@),
{
    if s.len() == 0 {
        return Vec::new();
    }
    let pb = choose_pb(cat);
    let dict = choose_dict_size(s.len());
    if cat != CAT_CODE as usize && cat != CAT_EH as usize && cat != CAT_OTHER as usize {
        let with_context = xz_encode_lc(s, PRESET, pb, dict, 3);
        let without_context = xz_encode_lc(s, PRESET, pb, dict, 0);
        pick_shorter(with_context, without_context)
    } else {
        compress_xz_tuned(s, PRESET, pb, dict)
    }
}

/// The stream that a compressed block stands for: empty for an empty block,
/// else what the decoder makes of it.
pub open spec fn category_decoded(block: Seq<u8>) -> Result<Seq<u8>, DecodeError> {
    if block.len() == 0 {
        Ok(Seq::empty())
    } else {
        match xz_decoded(block) {
            Some(s) => Ok(s),
            None => Err(DecodeError::CorruptStream),
        }
    }
}

/// Decompresses one block; an empty block gives an empty stream.
pub fn decompress_xz(data: &[u8]) -> (r: Result<Vec<u8>, DecodeError>)
    ensures
        match category_decoded(data@) {
            Ok(s) => r.is_ok() && r.unwrap()@ == s,
            Err(e) => r == Err::<Vec<u8>, DecodeError>(e),
        },
{
    if data.len() == 0 {
        return Ok(Vec::new());
    }
    match xz_decode(data) {
        Some(out) => Ok(out),
        None => Err(DecodeError::CorruptStream),
    }
}

/// The compressed forms of the filtered streams of all categories.
pub open spec fn all_encoded(streams: Seq<Seq<u8>>) -> Seq<Seq<u8>> {
    Seq::new(streams.len(), |c: int| category_encoded(c, streams[c]))
}

/// Whether the decoder accepts every block.
pub open spec fn all_decodable(blocks: Seq<Seq<u8>>) -> bool {
    forall|c: int| 0 <= c < blocks.len() ==> #[trigger] category_decoded(blocks[c]).is_ok()
}

/// The streams that the blocks stand for, where the decoder accepts every
/// block.
pub open spec fn all_decoded(blocks: Seq<Seq<u8>>) -> Result<Seq<Seq<u8>>, DecodeError> {
    if all_decodable(blocks) {
        Ok(Seq::new(blocks.len(), |c: int| category_decoded(blocks[c]).unwrap()))
    } else {
        Err(DecodeError::CorruptStream)
    }
}

/// `rayon`'s `par_iter`, `enumerate`, `map` and `collect`: the closure is
/// applied to every stream with its index and the results are collected in
/// the order of the streams.
#[verifier::external_body]
pub(crate) fn encode_all(streams: &Vec<Vec<u8>>) -> (r: Vec<Vec<u8>>)
    ensures
        r@.len() == streams@.len(),
        stream_views(r@) == all_encoded(stream_views(streams@)),
{
    streams.par_iter().enumerate().map(|(cat, s)| encode_category(cat, s)).collect()
}

/// `rayon`'s `par_iter`, `map` and `collect` into a `Result`: the closure is
/// applied to every block; the results are collected in the order of the
/// blocks where all are `Ok`, and one of the errors is returned otherwise.
#[verifier::external_body]
pub(crate) fn decode_all(blocks: &Vec<Vec<u8>>) -> (r: Result<Vec<Vec<u8>>, DecodeError>)
    ensures
        match all_decoded(stream_views(blocks@)) {
            Ok(streams) => r.is_ok() && stream_views(r.unwrap()@) == streams && r.unwrap()@.len()
                == blocks@.len(),
            Err(e) => r == Err::<Vec<Vec<u8>>, DecodeError>(e),
        },
{
    blocks.par_iter().map(|block| decompress_xz(block)).collect()
}

} // verus!
