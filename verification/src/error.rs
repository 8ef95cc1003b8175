//! The ways in which a container can fail to decode.

use vstd::prelude::*;

verus! {

/// Why a byte string is not a container that can be restored.
#[derive(Clone, Copy, Debug, PartialEq, Eq, Structural)]
pub enum DecodeError {
    /// The input is shorter than the fixed header.
    TooShort,
    /// The input does not start with the magic bytes.
    BadMagic,
    /// A varint runs past the end of its buffer.
    VarintEof,
    /// A varint does not end within ten bytes.
    VarintOverflow,
    /// The control stream's length field runs past the end of the input.
    RunsOutOfRange,
    /// A category stream's length field runs past the end of the input.
    StreamOutOfRange,
    /// The jump-table block's length field runs past the end of the input.
    JumpTablesOutOfRange,
    /// A category stream is not valid entropy-coder output.
    CorruptStream,
    /// A run names a category outside the closed set.
    BadCategory,
    /// The runs describe more bytes than the declared original length.
    RunsExceedLength,
    /// A run asks for more bytes than its category stream still holds.
    StreamUnderflow,
    /// A category stream holds bytes that no run consumed.
    StreamExtraBytes,
    /// A jump table of the side information does not lie inside the image.
    JumpTableOutOfImage,
}

impl DecodeError {
    /// A short description of the failure.
    pub fn message(&self) -> (r: &'static str)
        ensures
            r@ == (match *self {
                DecodeError::TooShort => "input too short"@,
                DecodeError::BadMagic => "bad magic"@,
                DecodeError::VarintEof => "varint eof"@,
                DecodeError::VarintOverflow => "varint overflow"@,
                DecodeError::RunsOutOfRange => "runs block out of range"@,
                DecodeError::StreamOutOfRange => "stream block out of range"@,
                DecodeError::JumpTablesOutOfRange => "jt block out of range"@,
                DecodeError::CorruptStream => "corrupt category stream"@,
                DecodeError::BadCategory => "bad category"@,
                DecodeError::RunsExceedLength => "runs exceed output length"@,
                DecodeError::StreamUnderflow => "stream underflow while reconstructing"@,
                DecodeError::StreamExtraBytes => "stream has extra bytes"@,
                DecodeError::JumpTableOutOfImage => "jump table outside the image"@,
            }),
    {
        match self {
            DecodeError::TooShort => "input too short",
            DecodeError::BadMagic => "bad magic",
            DecodeError::VarintEof => "varint eof",
            DecodeError::VarintOverflow => "varint overflow",
            DecodeError::RunsOutOfRange => "runs block out of range",
            DecodeError::StreamOutOfRange => "stream block out of range",
            DecodeError::JumpTablesOutOfRange => "jt block out of range",
            DecodeError::CorruptStream => "corrupt category stream",
            DecodeError::BadCategory => "bad category",
            DecodeError::RunsExceedLength => "runs exceed output length",
            DecodeError::StreamUnderflow => "stream underflow while reconstructing",
            DecodeError::StreamExtraBytes => "stream has extra bytes",
            DecodeError::JumpTableOutOfImage => "jump table outside the image",
        }
    }
}

} // verus!
