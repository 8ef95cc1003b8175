//! Reading a container gives back the parts it was written from, and the
//! filters of the category coder are undone by their inverses.

use crate::bytes::{lemma_le_u64_of_bytes, u64_le_bytes};
use crate::category::lemma_swapped_twice;
use crate::coder::{all_filtered, all_unfiltered, filtered, unfiltered};
use crate::container::{
    block_at, block_bytes, blocks_at, blocks_bytes, container_bytes, flag_byte, magic,
    parsed_container, ContainerModel,
};
use crate::error::DecodeError;
use crate::shuffle::lemma_unshuffle_shuffle;
use crate::varint::{lemma_varint_len, lemma_varint_round_trip, varint_bytes};
use vstd::prelude::*;

verus! {

/// Undoing the filter gives the stream back, for every category.
pub proof fn lemma_unfilter_filter(cat: int, s: Seq<u8>)
    ensures
        unfiltered(cat, filtered(cat, s)) == s,
{
    lemma_unshuffle_shuffle(crate::category::swapped(s, cat), crate::category::stride_of(cat));
    lemma_swapped_twice(s, cat);
}

/// Undoing the filter on all streams gives the streams back.
pub proof fn lemma_all_unfilter_filter(streams: Seq<Seq<u8>>)
    ensures
        all_unfiltered(all_filtered(streams)) == streams,
{
    assert forall|c: int| 0 <= c < streams.len() implies all_unfiltered(all_filtered(streams))[c]
        == streams[c] by {
        lemma_unfilter_filter(c, streams[c]);
    }
    assert(all_unfiltered(all_filtered(streams)) =~= streams);
}

/// A block is read back from where it was written.
pub proof fn lemma_block_at(before: Seq<u8>, content: Seq<u8>, after: Seq<u8>, err: DecodeError)
    requires
        content.len() <= u64::MAX,
    ensures
        block_at(before + block_bytes(content) + after, before.len() as int, err) == Ok::<
            (Seq<u8>, int),
            DecodeError,
        >((content, (before.len() + block_bytes(content).len()) as int)),
        block_bytes(content).len() == varint_bytes(content.len() as u64).len() + content.len(),
{
    let vb = varint_bytes(content.len() as u64);
    let data = before + block_bytes(content) + after;
    lemma_varint_round_trip(content.len() as u64, before, content + after);
    assert(before + vb + (content + after) =~= data);
    let start = (before.len() + vb.len()) as int;
    assert(data.subrange(start, start + content.len()) =~= content);
}

/// The first `n` blocks are read back from where they were written.
pub proof fn lemma_blocks_at(before: Seq<u8>, blocks: Seq<Seq<u8>>, n: int, after: Seq<u8>)
    requires
        0 <= n <= blocks.len(),
        forall|c: int| 0 <= c < blocks.len() ==> (#[trigger] blocks[c]).len() <= u64::MAX,
    ensures
        blocks_at(before + blocks_bytes(blocks, n) + after, before.len() as int, n) == Ok::<
            (Seq<Seq<u8>>, int),
            DecodeError,
        >((blocks.take(n), (before.len() + blocks_bytes(blocks, n).len()) as int)),
    decreases n,
{
    let data = before + blocks_bytes(blocks, n) + after;
    if n > 0 {
        let head = blocks_bytes(blocks, n - 1);
        let last = block_bytes(blocks[n - 1]);
        lemma_blocks_at(before, blocks, n - 1, last + after);
        assert(before + head + (last + after) =~= data);
        lemma_block_at(before + head, blocks[n - 1], after, DecodeError::StreamOutOfRange);
        assert((before + head) + last + after =~= data);
        assert(blocks.take(n - 1).push(blocks[n - 1]) =~= blocks.take(n));
    } else {
        assert(blocks.take(0) =~= Seq::<Seq<u8>>::empty());
    }
}

/// The first `n` blocks take at least one byte each.
proof fn lemma_blocks_min_len(blocks: Seq<Seq<u8>>, n: int)
    requires
        0 <= n,
    ensures
        blocks_bytes(blocks, n).len() >= n,
    decreases n,
{
    if n > 0 {
        lemma_blocks_min_len(blocks, n - 1);
        lemma_varint_len(blocks[n - 1].len() as u64);
    }
}

/// A container of fifteen blocks has at least 30 bytes: the header of 13
/// bytes and one byte for the length of each of its 17 parts.
pub proof fn lemma_container_min_len(c: ContainerModel)
    requires
        c.blocks.len() == 15,
    ensures
        container_bytes(c).len() >= 30,
{
    lemma_le_u64_of_bytes(c.orig_len);
    lemma_varint_len(c.runs.len() as u64);
    lemma_varint_len(c.jt_meta.len() as u64);
    lemma_blocks_min_len(c.blocks, 15);
}

/// Whether the lengths of the parts can be written down: fifteen blocks, and
/// no part longer than a 64-bit length says.
pub open spec fn writable(c: ContainerModel) -> bool {
    &&& c.blocks.len() == 15
    &&& c.runs.len() <= u64::MAX
    &&& c.jt_meta.len() <= u64::MAX
    &&& forall|k: int| 0 <= k < c.blocks.len() ==> (#[trigger] c.blocks[k]).len() <= u64::MAX
}

/// Reading the bytes of a container gives its parts back.
pub proof fn lemma_parse_build(c: ContainerModel)
    requires
        writable(c),
    ensures
        parsed_container(container_bytes(c)) == Ok::<ContainerModel, DecodeError>(c),
{
    let head = magic() + u64_le_bytes(c.orig_len) + seq![flag_byte(c.use_be)];
    let runs = block_bytes(c.runs);
    let blocks = blocks_bytes(c.blocks, 15);
    let jt = block_bytes(c.jt_meta);
    let data = container_bytes(c);
    lemma_le_u64_of_bytes(c.orig_len);
    assert(head.len() == 13);
    assert(data =~= head + runs + blocks + jt);
    assert(data.subrange(0, 4) =~= magic());
    assert(data.subrange(4, 12) =~= u64_le_bytes(c.orig_len));
    assert(data[12] == flag_byte(c.use_be));
    lemma_block_at(head, c.runs, blocks + jt, DecodeError::RunsOutOfRange);
    assert(head + runs + (blocks + jt) =~= data);
    lemma_blocks_at(head + runs, c.blocks, 15, jt);
    assert(c.blocks.take(15) =~= c.blocks);
    lemma_block_at(
        head + runs + blocks,
        c.jt_meta,
        Seq::empty(),
        DecodeError::JumpTablesOutOfRange,
    );
    assert(head + runs + blocks + jt + Seq::<u8>::empty() =~= data);
    let parsed = parsed_container(data);
    assert(parsed is Ok);
    assert(parsed->Ok_0.orig_len == c.orig_len);
    assert(parsed->Ok_0.use_be == c.use_be);
    assert(parsed->Ok_0.runs == c.runs);
    assert(parsed->Ok_0.blocks == c.blocks);
    assert(parsed->Ok_0.jt_meta == c.jt_meta);
}

} // verus!
