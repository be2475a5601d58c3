//! The stream-flags field: which integrity check each block carries.
//!
//! Encoded as two bytes: a reserved zero byte, then the check-kind code.
//! The stream header and footer each carry one copy, and the two must
//! agree byte for byte.

use vstd::prelude::*;

use crate::crc::crc32_of;
use crate::crc::Crc32;
use crate::error::DecodeError;
use crate::error::StreamDecodeError;
use crate::error::StreamFlagsError;
use crate::reader::le32_bytes;
use crate::reader::le32_to_bytes;
use crate::reader::RecordedReader;

verus! {

/// The per-block integrity check a stream asks for.
#[derive(Debug, Clone, Copy, PartialEq, Eq, Structural)]
pub enum StreamFlags {
    NoCheck,
    Crc32,
    Crc64,
    Sha256,
}

/// The check kind a code byte stands for, if any.
pub open spec fn check_kind_of(b: u8) -> Option<StreamFlags> {
    if b == 0x00 {
        Option::Some(StreamFlags::NoCheck)
    } else if b == 0x01 {
        Option::Some(StreamFlags::Crc32)
    } else if b == 0x04 {
        Option::Some(StreamFlags::Crc64)
    } else if b == 0x0A {
        Option::Some(StreamFlags::Sha256)
    } else {
        Option::None
    }
}

/// The code byte of a check kind.
pub open spec fn kind_byte(f: StreamFlags) -> u8 {
    match f {
        StreamFlags::NoCheck => 0x00,
        StreamFlags::Crc32 => 0x01,
        StreamFlags::Crc64 => 0x04,
        StreamFlags::Sha256 => 0x0A,
    }
}

/// The two flag bytes of a check kind.
pub open spec fn flag_bytes(f: StreamFlags) -> Seq<u8> {
    seq![0u8, kind_byte(f)]
}

impl StreamFlags {
    /// The two flag bytes: reserved zero, then the check-kind code.
    pub fn flag_encoding(&self) -> (r: Vec<u8>)
        ensures
            r@ == flag_bytes(*self),
    {
        let code: u8 = match self {
            StreamFlags::NoCheck => 0x00,
            StreamFlags::Crc32 => 0x01,
            StreamFlags::Crc64 => 0x04,
            StreamFlags::Sha256 => 0x0A,
        };
        let mut r: Vec<u8> = Vec::new();
        r.push(0);
        r.push(code);
        proof {
            assert(r@ =~= flag_bytes(*self));
        }
        r
    }

    /// The CRC32 that protects the two flag bytes.
    pub fn crc_32(&self) -> (r: u32)
        ensures
            r == crc32_of(flag_bytes(*self)),
    {
        let mut crc = Crc32::new();
        let bytes = self.flag_encoding();
        crc.process_bytes(&bytes);
        proof {
            assert(Seq::<u8>::empty() + bytes@ =~= flag_bytes(*self));
        }
        crc.result()
    }

    /// The four-byte encoding: the flag bytes followed by their CRC32.
    pub fn encoding(&self) -> (r: Vec<u8>)
        ensures
            r@ == flag_bytes(*self) + le32_bytes(crc32_of(flag_bytes(*self))),
    {
        let mut r = self.flag_encoding();
        let crc = self.crc_32();
        let mut tail = le32_to_bytes(crc);
        r.append(&mut tail);
        r
    }

    /// Interpret the two flag bytes: the first must be zero and the second
    /// a known check-kind code.
    pub fn try_from(b0: u8, b1: u8) -> (r: Result<StreamFlags, DecodeError>)
        ensures
            match r {
                Ok(f) => b0 == 0 && check_kind_of(b1) == Option::Some(f),
                Err(e) => {
                    if b0 != 0 {
                        e == DecodeError::StreamDecodeError(
                            StreamDecodeError::StreamFlagsError(
                                StreamFlagsError::InvalidStreamFlags,
                            ),
                        )
                    } else {
                        check_kind_of(b1) is None && e == DecodeError::StreamDecodeError(
                            StreamDecodeError::StreamFlagsError(
                                StreamFlagsError::ReservedStreamFlags,
                            ),
                        )
                    }
                },
            },
    {
        if b0 != 0 {
            return Err(
                DecodeError::StreamDecodeError(
                    StreamDecodeError::StreamFlagsError(StreamFlagsError::InvalidStreamFlags),
                ),
            );
        }
        if b1 == 0x00 {
            Ok(StreamFlags::NoCheck)
        } else if b1 == 0x01 {
            Ok(StreamFlags::Crc32)
        } else if b1 == 0x04 {
            Ok(StreamFlags::Crc64)
        } else if b1 == 0x0A {
            Ok(StreamFlags::Sha256)
        } else {
            Err(
                DecodeError::StreamDecodeError(
                    StreamDecodeError::StreamFlagsError(StreamFlagsError::ReservedStreamFlags),
                ),
            )
        }
    }

    /// Read and interpret two flag bytes.
    pub fn decode(src: &mut RecordedReader) -> (r: Result<StreamFlags, DecodeError>)
        requires
            old(src).wf(),
        ensures
            final(src).wf(),
            final(src).src() == old(src).src(),
            final(src).mark() == old(src).mark(),
            final(src).pos() >= old(src).pos(),
            match r {
                Ok(f) => {
                    &&& old(src).pos() + 2 <= old(src).src().len()
                    &&& old(src).src()[old(src).pos()] == 0
                    &&& check_kind_of(old(src).src()[old(src).pos() + 1]) == Option::Some(f)
                    &&& final(src).pos() == old(src).pos() + 2
                },
                Err(e) => {
                    ||| (e == DecodeError::EndOfInput && old(src).pos() + 2 > old(
                        src,
                    ).src().len())
                    ||| (old(src).pos() + 2 <= old(src).src().len() && (old(src).src()[old(
                        src,
                    ).pos()] != 0 || check_kind_of(old(src).src()[old(src).pos() + 1]) is None))
                },
            },
    {
        let b0 = match src.read_u8() {
            Ok(b) => b,
            Err(e) => {
                return Err(e);
            },
        };
        let b1 = match src.read_u8() {
            Ok(b) => b,
            Err(e) => {
                return Err(e);
            },
        };
        Self::try_from(b0, b1)
    }
}

} // verus!
