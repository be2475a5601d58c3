//! A verified decoder for the .xz container format and its LZMA2 payload.
//!
//! The crate parses the .xz stream framing (stream header, block headers,
//! block index, stream footer), checks every embedded CRC32, and decodes the
//! LZMA2-compressed block bodies with a range-coded adaptive LZMA engine.
//! All decoding works over in-memory byte buffers; reading files and writing
//! results belongs to the callers.

pub mod block_flags;
pub mod block_header;
pub mod crc;
pub mod decode;
pub mod dict;
pub mod error;
pub mod filter;
pub mod index;
pub mod len_decoder;
pub mod lzma2_decoder;
pub mod lzma_decoder;
pub mod lzma_state;
pub mod range_decoder;
pub mod reader;
pub mod stream_flags;
pub mod stream_footer;
pub mod stream_header;
pub mod vli;

pub use block_flags::BlockFlags;
pub use block_header::BlockHeader;
pub use crc::Crc32;
pub use crc::Crc64;
pub use decode::decode_xz;
pub use error::BlockDecodeError;
pub use error::DecodeError;
pub use error::Lzma2DecodeError;
pub use error::StreamDecodeError;
pub use error::StreamFlagsError;
pub use filter::Filter;
pub use index::BlockIndex;
pub use index::IndexRecord;
pub use lzma2_decoder::decode_lzma2;
pub use lzma2_decoder::Lzma2Decoder;
pub use lzma_decoder::LzmaDecoder;
pub use range_decoder::RangeDecoder;
pub use reader::RecordedReader;
pub use stream_flags::StreamFlags;
pub use stream_footer::StreamFooter;
pub use stream_header::StreamHeader;
pub use vli::VarLengthInt;
