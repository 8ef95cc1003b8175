//! The driver: the forward pipeline from an image to a container, the probe
//! that runs it in both endian modes and keeps the smaller container, and
//! the way back from a container to the image.

use crate::coder::{
    all_decoded, all_encoded, all_filtered, all_unfiltered, decode_all, encode_all, filter_streams,
    pick_shorter, shorter_of, unfilter_streams,
};
use crate::container::{
    build_container, container_bytes, parse_container, parsed_container, ContainerModel,
};
use crate::eh::{eh_frame_hdr_processed, process_eh_frame_hdr};
use crate::elf_tables::{elf_tables_processed, process_elf_tables};
use crate::error::DecodeError;
use crate::jump::{jump_tables_processed, process_jump_tables, JumpTable};
use crate::router::{
    join_streams, joined_image, routed_labels, runs_bytes, split_streams, streams_of,
};
use crate::text::{binary_processed, process_binary};
use vstd::prelude::*;

verus! {

/// The image after the instruction patcher and the exception-frame header
/// patcher ran forward, which is what the jump-table detector works on.
pub open spec fn patched(data: Seq<u8>, use_be: bool) -> Seq<u8> {
    eh_frame_hdr_processed(binary_processed(data, true, use_be), true, use_be)
}

/// The transformed image: the patched image with its jump tables rebased
/// and its typed tables delta-encoded.
pub open spec fn transformed(data: Seq<u8>, use_be: bool) -> Seq<u8> {
    elf_tables_processed(
        jump_tables_processed(patched(data, use_be), true, use_be, Seq::empty()).unwrap().0,
        true,
    )
}

/// The jump-table side table of the image.
pub open spec fn side_table(data: Seq<u8>, use_be: bool) -> Seq<u8> {
    jump_tables_processed(patched(data, use_be), true, use_be, Seq::empty()).unwrap().1
}

/// The jump tables of the image.
pub open spec fn found_tables(data: Seq<u8>, use_be: bool) -> Seq<JumpTable> {
    jump_tables_processed(patched(data, use_be), true, use_be, Seq::empty()).unwrap().2
}

/// The parts of the container of `data` in one endian mode: the length of
/// the image, the mode, the control stream and the compressed category
/// streams of the transformed image, and the side table.
pub open spec fn container_of(data: Seq<u8>, use_be: bool) -> ContainerModel {
    let img = transformed(data, use_be);
    let labels = routed_labels(img, found_tables(data, use_be));
    ContainerModel {
        orig_len: data.len() as u64,
        use_be,
        runs: runs_bytes(labels),
        blocks: all_encoded(all_filtered(streams_of(img, labels))),
        jt_meta: side_table(data, use_be),
    }
}

/// The container that the forward pipeline makes of `data` in one endian
/// mode.
pub open spec fn compressed_with_mode(data: Seq<u8>, use_be: bool) -> Seq<u8> {
    container_bytes(container_of(data, use_be))
}

/// The container of `data`: the smaller of the containers of the two endian
/// modes, the native one where they are equally long.
pub open spec fn compressed(data: Seq<u8>) -> Seq<u8> {
    shorter_of(compressed_with_mode(data, false), compressed_with_mode(data, true))
}

/// The image that the inverse transforms make of the reassembled image
/// `skel`: the typed tables, the jump tables, the exception-frame header
/// and the instructions are restored, in this order.
pub open spec fn restored(skel: Seq<u8>, use_be: bool, jt_meta: Seq<u8>) -> Result<
    Seq<u8>,
    DecodeError,
> {
    match jump_tables_processed(elf_tables_processed(skel, false), false, use_be, jt_meta) {
        Err(e) => Err(e),
        Ok((img, _, _)) => Ok(
            binary_processed(eh_frame_hdr_processed(img, false, use_be), false, use_be),
        ),
    }
}

/// The image that the container `data` stands for, or the reason why it
/// stands for none.
pub open spec fn decompressed(data: Seq<u8>) -> Result<Seq<u8>, DecodeError> {
    match parsed_container(data) {
        Err(e) => Err(e),
        Ok(c) => match all_decoded(c.blocks) {
            Err(e) => Err(e),
            Ok(streams) => match joined_image(
                c.runs,
                all_unfiltered(streams),
                c.orig_len as usize as int,
            ) {
                Err(e) => Err(e),
                Ok(skel) => restored(skel, c.use_be, c.jt_meta),
            },
        },
    }
}

/// Runs the forward pipeline in one endian mode: the four transforms, the
/// router, the filters and the entropy coder, and writes the container.
pub fn compress_with_mode(file_data: &[u8], use_be: bool) -> (out: Vec<u8>)
    ensures
        out@ == compressed_with_mode(file_data@, use_be),
{
    let skel = process_binary(file_data, true, use_be);
    let skel = process_eh_frame_hdr(skel.as_slice(), true, use_be);
    let (skel, jt_meta, jump_tables) = process_jump_tables(
        skel.as_slice(),
        true,
        use_be,
        None,
    ).unwrap();
    let skel = process_elf_tables(skel.as_slice(), true);
    let (runs, streams) = split_streams(skel.as_slice(), jump_tables.as_slice());
    let filtered = filter_streams(&streams);
    let blocks = encode_all(&filtered);
    build_container(
        file_data.len() as u64,
        use_be,
        runs.as_slice(),
        &blocks,
        jt_meta.as_slice(),
    )
}

/// `rayon::join`: runs both closures, possibly in parallel, and returns
/// the result of the first and the result of the second.
#[verifier::external_body]
fn compress_both(file_data: &[u8]) -> (r: (Vec<u8>, Vec<u8>))
    ensures
        r.0@ == compressed_with_mode(file_data@, false),
        r.1@ == compressed_with_mode(file_data@, true),
{
    rayon::join(|| compress_with_mode(file_data, false), || compress_with_mode(file_data, true))
}

/// Compresses an image: runs the pipeline in both endian modes and keeps
/// the smaller container.
pub fn compress(file_data: &[u8]) -> (out: Vec<u8>)
    ensures
        out@ == compressed(file_data@),
        out@.len() <= compressed_with_mode(file_data@, false).len(),
        out@.len() <= compressed_with_mode(file_data@, true).len(),
{
    let (native, swapped) = compress_both(file_data);
    pick_shorter(native, swapped)
}

/// Restores the image from the reassembled image `skel`.
pub fn restore(skel: &[u8], use_be: bool, jt_meta: &[u8]) -> (r: Result<Vec<u8>, DecodeError>)
    ensures
        match restored(skel@, use_be, jt_meta@) {
            Ok(img) => r.is_ok() && r.unwrap()@ == img,
            Err(e) => r is Err && r->Err_0 == e,
        },
{
    let skel = process_elf_tables(skel, false);
    let skel = match process_jump_tables(skel.as_slice(), false, use_be, Some(jt_meta)) {
        Ok((img, _, _)) => img,
        Err(e) => {
            return Err(e);
        },
    };
    let skel = process_eh_frame_hdr(skel.as_slice(), false, use_be);
    Ok(process_binary(skel.as_slice(), false, use_be))
}

/// Decompresses a container: reads its parts, decodes and unfilters the
/// category streams, reassembles the transformed image and undoes the
/// transforms.
pub fn decompress(data: &[u8]) -> (r: Result<Vec<u8>, DecodeError>)
    ensures
        match decompressed(data@) {
            Ok(img) => r.is_ok() && r.unwrap()@ == img,
            Err(e) => r is Err && r->Err_0 == e,
        },
{
    let container = match parse_container(data) {
        Ok(c) => c,
        Err(e) => {
            return Err(e);
        },
    };
    let streams = match decode_all(&container.blocks) {
        Ok(s) => s,
        Err(e) => {
            return Err(e);
        },
    };
    let streams = unfilter_streams(&streams);
    let orig_len: usize = #[verifier::truncate]
    (container.orig_len as usize);
    let skel = match join_streams(container.runs.as_slice(), &streams, orig_len) {
        Ok(s) => s,
        Err(e) => {
            return Err(e);
        },
    };
    restore(skel.as_slice(), container.use_be, container.jt_meta.as_slice())
}

/// Why a comparison failed.
#[derive(Clone, Copy, Debug, PartialEq, Eq, Structural)]
pub enum CompareError {
    /// The container of the image cannot be decompressed.
    Decode(DecodeError),
    /// The container decompresses to another image.
    Mismatch,
}

/// What the comparison of the image `data` with what its container stands
/// for gives: the container, where the container stands for the image.
pub open spec fn compared(data: Seq<u8>) -> Result<Seq<u8>, CompareError> {
    match decompressed(compressed(data)) {
        Err(e) => Err(CompareError::Decode(e)),
        Ok(img) => if img == data {
            Ok(compressed(data))
        } else {
            Err(CompareError::Mismatch)
        },
    }
}

/// Tests whether two byte strings are equal.
pub fn same_bytes(a: &[u8], b: &[u8]) -> (r: bool)
    ensures
        r == (a@ == b@),
{
    if a.len() != b.len() {
        return false;
    }
    let mut i: usize = 0;
    while i < a.len()
        invariant
            i <= a.len(),
            a.len() == b.len(),
            forall|k: int| 0 <= k < i ==> a@[k] == b@[k],
        decreases a.len() - i,
    {
        if a[i] != b[i] {
            return false;
        }
        i = i + 1;
    }
    proof {
        assert(a@ =~= b@);
    }
    true
}

/// Compresses an image, decompresses the container and compares: returns
/// the container only where it decompresses to the image.
pub fn compare(file_data: &[u8]) -> (r: Result<Vec<u8>, CompareError>)
    ensures
        match compared(file_data@) {
            Ok(c) => r.is_ok() && r.unwrap()@ == c,
            Err(e) => r is Err && r->Err_0 == e,
        },
        r.is_ok() ==> decompressed(r.unwrap()@) == Ok::<Seq<u8>, DecodeError>(file_data@),
{
    let packed = compress(file_data);
    match decompress(packed.as_slice()) {
        Err(e) => Err(CompareError::Decode(e)),
        Ok(img) => {
            if same_bytes(img.as_slice(), file_data) {
                Ok(packed)
            } else {
                Err(CompareError::Mismatch)
            }
        },
    }
}

} // verus!
