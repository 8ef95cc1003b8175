//! The container: a fixed header, then blocks that each start with their
//! length as a varint.
//!
//! ```text
//! magic "FESC" | original length, 8 bytes little-endian | endian flag
//! | control stream | 15 compressed category streams | jump-table side table
//! ```

use crate::bytes::{load_u64, store_u64, u64_at, u64_le_bytes};
use crate::error::DecodeError;
use crate::router::stream_views;
use crate::varint::{read_varint, varint_bytes, varint_decode, write_varint};
use vstd::prelude::*;

verus! {

/// The bytes that a container starts with: the text `FESC`.
pub open spec fn magic() -> Seq<u8> {
    seq![0x46u8, 0x45u8, 0x53u8, 0x43u8]
}

/// The parts of a container.
#[derive(Clone, Debug)]
pub struct Container {
    /// The length of the original image.
    pub orig_len: u64,
    /// Whether rebased fields are stored big-endian.
    pub use_be: bool,
    /// The run-length control stream.
    pub runs: Vec<u8>,
    /// The compressed category streams, by category.
    pub blocks: Vec<Vec<u8>>,
    /// The jump-table side table.
    pub jt_meta: Vec<u8>,
}

/// The mathematical value of a `Container`.
pub struct ContainerModel {
    pub orig_len: u64,
    pub use_be: bool,
    pub runs: Seq<u8>,
    pub blocks: Seq<Seq<u8>>,
    pub jt_meta: Seq<u8>,
}

impl View for Container {
    type V = ContainerModel;

    open spec fn view(&self) -> ContainerModel {
        ContainerModel {
            orig_len: self.orig_len,
            use_be: self.use_be,
            runs: self.runs@,
            blocks: stream_views(self.blocks@),
            jt_meta: self.jt_meta@,
        }
    }
}

/// A block: the length of its content as a varint, then the content.
pub open spec fn block_bytes(content: Seq<u8>) -> Seq<u8> {
    varint_bytes(content.len() as u64) + content
}

/// The first `n` of `blocks`, one after the other.
pub open spec fn blocks_bytes(blocks: Seq<Seq<u8>>, n: int) -> Seq<u8>
    decreases n,
{
    if n <= 0 {
        Seq::empty()
    } else {
        blocks_bytes(blocks, n - 1) + block_bytes(blocks[n - 1])
    }
}

/// The byte of the endian flag.
pub open spec fn flag_byte(use_be: bool) -> u8 {
    if use_be {
        1
    } else {
        0
    }
}

/// The bytes of a container.
pub open spec fn container_bytes(c: ContainerModel) -> Seq<u8> {
    magic() + u64_le_bytes(c.orig_len) + seq![flag_byte(c.use_be)] + block_bytes(c.runs)
        + blocks_bytes(c.blocks, c.blocks.len() as int) + block_bytes(c.jt_meta)
}

/// The block that starts at byte `pos` of `data`, with the position behind
/// it. A block whose length field runs past the end of `data` is the error
/// `err`.
pub open spec fn block_at(data: Seq<u8>, pos: int, err: DecodeError) -> Result<
    (Seq<u8>, int),
    DecodeError,
> {
    match varint_decode(data, pos) {
        Err(e) => Err(e),
        Ok((len, start)) => if start + len > data.len() {
            Err(err)
        } else {
            Ok((data.subrange(start, start + len), start + len))
        },
    }
}

/// The `n` blocks that start at byte `pos` of `data`, with the position
/// behind them.
pub open spec fn blocks_at(data: Seq<u8>, pos: int, n: int) -> Result<
    (Seq<Seq<u8>>, int),
    DecodeError,
>
    decreases n,
{
    if n <= 0 {
        Ok((Seq::empty(), pos))
    } else {
        match blocks_at(data, pos, n - 1) {
            Err(e) => Err(e),
            Ok((blocks, p)) => match block_at(data, p, DecodeError::StreamOutOfRange) {
                Err(e) => Err(e),
                Ok((block, end)) => Ok((blocks.push(block), end)),
            },
        }
    }
}

/// The parts of the container `data`. Bytes behind the last block are not
/// read; a flag byte other than 1 means little-endian.
pub open spec fn parsed_container(data: Seq<u8>) -> Result<ContainerModel, DecodeError> {
    if data.len() < 13 {
        Err(DecodeError::TooShort)
    } else if data.subrange(0, 4) != magic() {
        Err(DecodeError::BadMagic)
    } else {
        match block_at(data, 13, DecodeError::RunsOutOfRange) {
            Err(e) => Err(e),
            Ok((runs, after_runs)) => match blocks_at(data, after_runs, 15) {
                Err(e) => Err(e),
                Ok((blocks, after_blocks)) => match block_at(
                    data,
                    after_blocks,
                    DecodeError::JumpTablesOutOfRange,
                ) {
                    Err(e) => Err(e),
                    Ok((jt_meta, _)) => Ok(
                        ContainerModel {
                            orig_len: u64_at(data, 4),
                            use_be: data[12] == 1,
                            runs,
                            blocks,
                            jt_meta,
                        },
                    ),
                },
            },
        }
    }
}

/// Appends `data` to `out`.
pub fn append(out: &mut Vec<u8>, data: &[u8])
    ensures
        final(out)@ == old(out)@ + data@,
{
    let mut i: usize = 0;
    while i < data.len()
        invariant
            i <= data.len(),
            out@ == old(out)@ + data@.subrange(0, i as int),
        decreases data.len() - i,
    {
        out.push(data[i]);
        proof {
            assert(data@.subrange(0, i + 1) =~= data@.subrange(0, i as int).push(data@[i as int]));
        }
        i = i + 1;
    }
    proof {
        assert(data@.subrange(0, data@.len() as int) =~= data@);
    }
}

/// Appends a block with the content `content` to `out`.
pub fn write_block(out: &mut Vec<u8>, content: &[u8])
    ensures
        final(out)@ == old(out)@ + block_bytes(content@),
{
    write_varint(out, content.len() as u64);
    append(out, content);
    proof {
        assert(out@ =~= old(out)@ + block_bytes(content@));
    }
}

/// Writes a container.
pub fn build_container(
    orig_len: u64,
    use_be: bool,
    runs: &[u8],
    blocks: &Vec<Vec<u8>>,
    jt_meta: &[u8],
) -> (out: Vec<u8>)
    ensures
        out@ == container_bytes(
            ContainerModel {
                orig_len,
                use_be,
                runs: runs@,
                blocks: stream_views(blocks@),
                jt_meta: jt_meta@,
            },
        ),
{
    let mut out: Vec<u8> = Vec::new();
    out.push(0x46);
    out.push(0x45);
    out.push(0x53);
    out.push(0x43);
    let mut len_buf: Vec<u8> = vec![0u8; 8];
    store_u64(len_buf.as_mut_slice(), 0, orig_len);
    proof {
        crate::bytes::lemma_le_u64_of_bytes(orig_len);
        assert(len_buf@ =~= u64_le_bytes(orig_len));
    }
    append(&mut out, len_buf.as_slice());
    out.push(if use_be { 1 } else { 0 });
    write_block(&mut out, runs);
    let ghost head = out@;
    proof {
        assert(head =~= magic() + u64_le_bytes(orig_len) + seq![flag_byte(use_be)] + block_bytes(
            runs@,
        ));
    }
    let mut c: usize = 0;
    while c < blocks.len()
        invariant
            c <= blocks.len(),
            out@ == head + blocks_bytes(stream_views(blocks@), c as int),
        decreases blocks.len() - c,
    {
        write_block(&mut out, blocks[c].as_slice());
        proof {
            assert(stream_views(blocks@)[c as int] == blocks@[c as int]@);
            assert(out@ =~= head + blocks_bytes(stream_views(blocks@), c + 1));
        }
        c = c + 1;
    }
    write_block(&mut out, jt_meta);
    out
}

/// Reads the block at `*pos` and moves `*pos` behind it. On failure `*pos`
/// stays where it was.
pub fn read_block(data: &[u8], pos: &mut usize, err: DecodeError) -> (r: Result<
    Vec<u8>,
    DecodeError,
>)
    ensures
        match block_at(data@, *old(pos) as int, err) {
            Ok((content, end)) => r.is_ok() && r.unwrap()@ == content && *final(pos) == end,
            Err(e) => r == Err::<Vec<u8>, DecodeError>(e) && *final(pos) == *old(pos),
        },
{
    proof {
        crate::varint::lemma_varint_advances(data@, *old(pos) as int);
    }
    let at = *pos;
    let len = match read_varint(data, pos) {
        Ok(v) => v,
        Err(e) => {
            return Err(e);
        },
    };
    let start = *pos;
    if len > (data.len() - start) as u64 {
        *pos = at;
        return Err(err);
    }
    let end = start + len as usize;
    *pos = end;
    Ok(vstd::slice::slice_to_vec(vstd::slice::slice_subrange(data, start, end)))
}

/// Reads a container.
pub fn parse_container(data: &[u8]) -> (r: Result<Container, DecodeError>)
    ensures
        match parsed_container(data@) {
            Ok(c) => {
                &&& r.is_ok()
                &&& r.unwrap()@ == c
                &&& c.blocks.len() == 15
                &&& r.unwrap().blocks@.len() == 15
            },
            Err(e) => r is Err && r->Err_0 == e,
        },
{
    if data.len() < 13 {
        return Err(DecodeError::TooShort);
    }
    if data[0] != 0x46 || data[1] != 0x45 || data[2] != 0x53 || data[3] != 0x43 {
        proof {
            let m = data@.subrange(0, 4);
            assert(m[0] == data@[0] && m[1] == data@[1] && m[2] == data@[2] && m[3] == data@[3]);
        }
        return Err(DecodeError::BadMagic);
    }
    proof {
        assert(data@.subrange(0, 4) =~= magic());
    }
    let orig_len = load_u64(data, 4);
    let use_be = data[12] == 1;
    let mut pos: usize = 13;
    let runs = match read_block(data, &mut pos, DecodeError::RunsOutOfRange) {
        Ok(b) => b,
        Err(e) => {
            return Err(e);
        },
    };
    let ghost after_runs = pos as int;
    let mut blocks: Vec<Vec<u8>> = Vec::new();
    let mut c: usize = 0;
    proof {
        assert(stream_views(blocks@) =~= Seq::<Seq<u8>>::empty());
    }
    while c < 15
        invariant
            c <= 15,
            blocks@.len() == c,
            data@.len() >= 13,
            data@.subrange(0, 4) == magic(),
            block_at(data@, 13, DecodeError::RunsOutOfRange) == Ok::<(Seq<u8>, int), DecodeError>(
                (runs@, after_runs),
            ),
            blocks_at(data@, after_runs, c as int) == Ok::<(Seq<Seq<u8>>, int), DecodeError>(
                (stream_views(blocks@), pos as int),
            ),
        decreases 15 - c,
    {
        let ghost before = stream_views(blocks@);
        let block = match read_block(data, &mut pos, DecodeError::StreamOutOfRange) {
            Ok(b) => b,
            Err(e) => {
                proof {
                    lemma_blocks_at_error(data@, after_runs, c + 1, 15);
                }
                return Err(e);
            },
        };
        blocks.push(block);
        proof {
            assert(stream_views(blocks@) =~= before.push(block@));
        }
        c = c + 1;
    }
    let jt_meta = match read_block(data, &mut pos, DecodeError::JumpTablesOutOfRange) {
        Ok(b) => b,
        Err(e) => {
            return Err(e);
        },
    };
    Ok(Container { orig_len, use_be, runs, blocks, jt_meta })
}

/// Once a block cannot be read, more blocks cannot be read either, for the
/// same reason.
pub proof fn lemma_blocks_at_error(data: Seq<u8>, pos: int, n: int, m: int)
    requires
        n <= m,
        blocks_at(data, pos, n) is Err,
    ensures
        blocks_at(data, pos, m) == blocks_at(data, pos, n),
    decreases m - n,
{
    if n < m {
        lemma_blocks_at_error(data, pos, n, m - 1);
    }
}

} // verus!
