//! The twelve-byte stream header: magic, flags, and their CRC32.

use vstd::prelude::*;

use crate::crc::crc32_of;
use crate::crc::crc32_range;
use crate::error::DecodeError;
use crate::error::StreamDecodeError;
use crate::reader::le32_bytes;
use crate::reader::le32_of;
use crate::reader::le32_to_bytes;
use crate::reader::RecordedReader;
use crate::stream_flags::check_kind_of;
use crate::stream_flags::flag_bytes;
use crate::stream_flags::StreamFlags;

verus! {

/// Whether the first six bytes of `s` are the stream magic.
pub open spec fn header_magic_ok(s: Seq<u8>) -> bool {
    &&& s[0] == 0xFD
    &&& s[1] == 0x37
    &&& s[2] == 0x7A
    &&& s[3] == 0x58
    &&& s[4] == 0x5A
    &&& s[5] == 0x00
}

/// Parse the twelve header bytes at the front of `s`: the magic, a valid
/// flags field, and a CRC32 over the two flag bytes.
pub open spec fn parse_stream_header(s: Seq<u8>) -> Option<StreamFlags> {
    if s.len() < 12 {
        Option::None
    } else if !header_magic_ok(s) {
        Option::None
    } else if s[6] != 0 {
        Option::None
    } else {
        match check_kind_of(s[7]) {
            Option::None => Option::None,
            Option::Some(f) => {
                if le32_of(s.subrange(8, 12)) == crc32_of(s.subrange(6, 8)) {
                    Option::Some(f)
                } else {
                    Option::None
                }
            },
        }
    }
}

/// The start of every .xz stream.
#[derive(Debug, Clone)]
pub struct StreamHeader {
    pub flags: StreamFlags,
}

impl StreamHeader {
    /// The twelve bytes this header encodes to.
    pub open spec fn encoding_spec(self) -> Seq<u8> {
        seq![0xFDu8, 0x37u8, 0x7Au8, 0x58u8, 0x5Au8, 0x00u8] + flag_bytes(self.flags) + le32_bytes(
            crc32_of(flag_bytes(self.flags)),
        )
    }

    /// Encode the header: magic, flags, and the CRC32 of the flag bytes.
    pub fn encode(&self) -> (r: Vec<u8>)
        ensures
            r@ == self.encoding_spec(),
    {
        let mut r: Vec<u8> = Vec::new();
        r.push(0xFD);
        r.push(0x37);
        r.push(0x7A);
        r.push(0x58);
        r.push(0x5A);
        r.push(0x00);
        let mut flags = self.flags.encoding();
        r.append(&mut flags);
        proof {
            assert(r@ =~= self.encoding_spec());
        }
        r
    }

    /// Encoding a header and parsing it back yields the same flags.
    pub proof fn lemma_encoding_round_trip(self)
        ensures
            parse_stream_header(self.encoding_spec()) == Option::Some(self.flags),
    {
        let s = self.encoding_spec();
        let crc = crc32_of(flag_bytes(self.flags));
        crate::reader::lemma_le32_bytes_value(crc);
        assert(s.subrange(6, 8) =~= flag_bytes(self.flags));
        assert(s.subrange(8, 12) =~= le32_bytes(crc));
        assert(s[7] == crate::stream_flags::kind_byte(self.flags));
        assert(check_kind_of(s[7]) == Option::Some(self.flags));
    }

    /// Read and check the twelve header bytes.
    pub fn decode(src: &mut RecordedReader) -> (r: Result<StreamHeader, DecodeError>)
        requires
            old(src).wf(),
        ensures
            final(src).wf(),
            final(src).src() == old(src).src(),
            final(src).mark() == old(src).mark(),
            final(src).pos() >= old(src).pos(),
            match r {
                Ok(h) => {
                    &&& old(src).pos() + 12 <= old(src).src().len()
                    &&& parse_stream_header(old(src).src().skip(old(src).pos()))
                        == Option::Some(h.flags)
                    &&& final(src).pos() == old(src).pos() + 12
                },
                Err(e) => {
                    ||| (e == DecodeError::EndOfInput && old(src).pos() + 12 > old(
                        src,
                    ).src().len())
                    ||| (e == DecodeError::StreamDecodeError(StreamDecodeError::InvalidHeader)
                        && old(src).pos() + 12 <= old(src).src().len() && parse_stream_header(
                        old(src).src().skip(old(src).pos()),
                    ) is None)
                },
            },
    {
        let ghost s = old(src).src().skip(old(src).pos());
        let v = match src.read_bytes(12) {
            Ok(v) => v,
            Err(e) => {
                return Err(e);
            },
        };
        proof {
            assert forall|i: int| 0 <= i < 12 implies v@[i] == s[i] by {
                assert(s[i] == old(src).src()[old(src).pos() + i]);
            }
        }
        if !(v[0] == 0xFD && v[1] == 0x37 && v[2] == 0x7A && v[3] == 0x58 && v[4] == 0x5A && v[5]
            == 0x00) {
            return Err(DecodeError::StreamDecodeError(StreamDecodeError::InvalidHeader));
        }
        let flags = match StreamFlags::try_from(v[6], v[7]) {
            Ok(f) => f,
            Err(_) => {
                return Err(DecodeError::StreamDecodeError(StreamDecodeError::InvalidHeader));
            },
        };
        let actual = crc32_range(&v, 6, 8);
        let expected = (v[8] as u32) + (v[9] as u32) * 0x100 + (v[10] as u32) * 0x1_0000 + (v[11]
            as u32) * 0x100_0000;
        proof {
            assert(v@.subrange(6, 8) =~= s.subrange(6, 8));
            assert(v@.subrange(8, 12) =~= s.subrange(8, 12));
            assert(expected as nat == le32_of(s.subrange(8, 12)));
        }
        if actual != expected {
            return Err(DecodeError::StreamDecodeError(StreamDecodeError::InvalidHeader));
        }
        Ok(StreamHeader { flags })
    }
}

} // verus!
