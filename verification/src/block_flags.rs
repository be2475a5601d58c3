//! The block-header flag byte: filter count, size presence, reserved bits.

use vstd::prelude::*;

use crate::error::BlockDecodeError;
use crate::error::DecodeError;
use crate::reader::RecordedReader;

verus! {

/// The decoded flag byte of a block header.
#[derive(Debug, Clone, PartialEq, Eq, Structural)]
pub struct BlockFlags {
    /// How many filters the chain holds, 1 to 4.
    pub filter_count: u8,
    pub has_compressed_size: bool,
    pub has_uncompressed_size: bool,
}

/// Parse a block flag byte; any set reserved bit (mask 0x3C) is rejected.
pub open spec fn parse_block_flags(b: u8) -> Option<BlockFlags> {
    if b & 0x3C != 0 {
        Option::None
    } else {
        Option::Some(
            (BlockFlags {
                filter_count: ((b & 0x03) + 1) as u8,
                has_compressed_size: b & 0x40 != 0,
                has_uncompressed_size: b & 0x80 != 0,
            }),
        )
    }
}

/// The flag byte a well-formed `BlockFlags` encodes to.
pub open spec fn block_flags_byte(f: BlockFlags) -> u8 {
    (((f.filter_count - 1) as u8) | (if f.has_compressed_size {
        0x40u8
    } else {
        0u8
    }) | (if f.has_uncompressed_size {
        0x80u8
    } else {
        0u8
    })) as u8
}

impl BlockFlags {
    /// A flag value the format can represent.
    pub open spec fn wf(self) -> bool {
        1 <= self.filter_count <= 4
    }

    /// Encode the flag byte.
    pub fn encode(&self) -> (r: Vec<u8>)
        requires
            self.wf(),
        ensures
            r@ == seq![block_flags_byte(*self)],
            parse_block_flags(block_flags_byte(*self)) == Option::Some(*self),
    {
        let count_bits = (self.filter_count - 1) & 0x03;
        let c = if self.has_compressed_size {
            0x40u8
        } else {
            0u8
        };
        let u = if self.has_uncompressed_size {
            0x80u8
        } else {
            0u8
        };
        let byte = count_bits | c | u;
        let ghost fc = self.filter_count;
        proof {
            lemma_block_flags_round_trip(*self);
            assert((fc - 1) as u8 & 0x03 == (fc - 1) as u8) by (bit_vector)
                requires
                    1 <= fc <= 4,
            ;
        }
        let mut r: Vec<u8> = Vec::new();
        r.push(byte);
        proof {
            assert(r@ =~= seq![block_flags_byte(*self)]);
        }
        r
    }

    /// Read and parse one flag byte.
    pub fn decode(src: &mut RecordedReader) -> (r: Result<BlockFlags, DecodeError>)
        requires
            old(src).wf(),
        ensures
            final(src).wf(),
            final(src).src() == old(src).src(),
            final(src).mark() == old(src).mark(),
            final(src).pos() >= old(src).pos(),
            match r {
                Ok(f) => {
                    &&& old(src).pos() < old(src).src().len()
                    &&& parse_block_flags(old(src).src()[old(src).pos()]) == Option::Some(f)
                    &&& final(src).pos() == old(src).pos() + 1
                },
                Err(e) => {
                    ||| (e == DecodeError::EndOfInput && old(src).pos() == old(src).src().len())
                    ||| (e == DecodeError::BlockDecodeError(BlockDecodeError::InvalidHeader)
                        && old(src).pos() < old(src).src().len() && parse_block_flags(
                        old(src).src()[old(src).pos()],
                    ) is None)
                },
            },
    {
        let b = match src.read_u8() {
            Ok(b) => b,
            Err(e) => {
                return Err(e);
            },
        };
        if b & 0x3C != 0 {
            return Err(DecodeError::BlockDecodeError(BlockDecodeError::InvalidHeader));
        }
        proof {
            assert(b & 0x03 <= 3) by (bit_vector);
        }
        Ok(
            BlockFlags {
                filter_count: (b & 0x03) + 1,
                has_compressed_size: b & 0x40 != 0,
                has_uncompressed_size: b & 0x80 != 0,
            },
        )
    }
}

/// A well-formed flag value survives the trip through its byte.
pub proof fn lemma_block_flags_round_trip(f: BlockFlags)
    requires
        f.wf(),
    ensures
        parse_block_flags(block_flags_byte(f)) == Option::Some(f),
{
    let cb = (f.filter_count - 1) as u8;
    let c: u8 = if f.has_compressed_size {
        0x40
    } else {
        0
    };
    let u: u8 = if f.has_uncompressed_size {
        0x80
    } else {
        0
    };
    assert((cb <= 3 && (c == 0x40 || c == 0) && (u == 0x80 || u == 0)) ==> {
        &&& (cb | c | u) & 0x3C == 0
        &&& ((cb | c | u) & 0x03) == cb
        &&& ((cb | c | u) & 0x40 != 0) == (c == 0x40)
        &&& ((cb | c | u) & 0x80 != 0) == (u == 0x80)
    }) by (bit_vector);
}

} // verus!
