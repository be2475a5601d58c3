//! Error types for every stage of .xz decoding.

use vstd::prelude::*;

verus! {

/// Errors from parsing the two-byte stream-flags field.
#[derive(Debug, Clone, PartialEq, Eq)]
pub enum StreamFlagsError {
    /// The check-kind byte holds a reserved value.
    ReservedStreamFlags,
    /// The first flag byte is not zero.
    InvalidStreamFlags,
}

/// Errors from parsing the stream header, footer, or their agreement.
#[derive(Debug, Clone, PartialEq, Eq)]
pub enum StreamDecodeError {
    /// The stream-flags field is malformed.
    StreamFlagsError(StreamFlagsError),
    /// The stream header is malformed.
    InvalidHeader,
    /// The stream footer is malformed.
    InvalidFooter,
    /// The stream flags of the header and the footer differ.
    HeaderFooterMismatch,
}

/// Errors from parsing a block header or the block index.
#[derive(Debug, Clone, PartialEq, Eq)]
pub enum BlockDecodeError {
    /// The block header is malformed.
    InvalidHeader,
    /// The block index is malformed.
    InvalidIndex,
    /// Reserved bits are set in the block flags.
    ReservedBlockFlags,
    /// A variable-length integer field is malformed.
    InvalidVarInt,
    /// The compressed data is malformed.
    InvalidData,
    /// The block check does not match the decoded plaintext.
    ChecksumMismatch,
    /// The stream asks for a check kind this decoder does not compute.
    UnsupportedCheck,
}

/// Errors from the LZMA2 chunk layer and the LZMA engine.
#[derive(Debug, Clone, PartialEq, Eq)]
pub enum Lzma2DecodeError {
    /// The properties byte encodes no valid lc/lp/pb triple.
    InvalidProperties,
    /// A chunk control byte holds a reserved value.
    InvalidControlByte,
    /// A match distance reaches further back than the decoded history.
    InvalidDistance,
    /// A chunk's range-coded payload is not exactly its declared size.
    CompressedSizeMismatch,
    /// A chunk's symbols decode past its declared uncompressed size.
    DecompressedSizeMismatch,
    /// The decoded plaintext outgrows the address space.
    TooLarge,
}

/// Any error the decoder reports; terminal for the current stream.
#[derive(Debug, Clone, PartialEq, Eq)]
pub enum DecodeError {
    /// The stream framing is malformed.
    StreamDecodeError(StreamDecodeError),
    /// A block is malformed.
    BlockDecodeError(BlockDecodeError),
    /// The LZMA2 payload is malformed.
    LzmaError(Lzma2DecodeError),
    /// A variable-length integer does not fit in 63 bits or ends in a
    /// needless zero byte.
    VliOverflowError,
    /// The input ended before the structure it holds was complete.
    EndOfInput,
}

} // verus!
