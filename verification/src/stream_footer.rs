//! The twelve-byte stream footer: CRC32, backward size, flags, and magic.

use vstd::prelude::*;

use crate::crc::crc32_of;
use crate::crc::crc32_range;
use crate::error::DecodeError;
use crate::error::StreamDecodeError;
use crate::reader::le32_bytes;
use crate::reader::le32_of;
use crate::reader::le32_to_bytes;
use crate::reader::RecordedReader;
use crate::stream_flags::check_kind_of;
use crate::stream_flags::flag_bytes;
use crate::stream_flags::StreamFlags;

verus! {

/// Parse the twelve footer bytes at the front of `s`: a CRC32 over the six
/// bytes that follow it, the backward size, a valid flags field, and the
/// closing magic.
pub open spec fn parse_stream_footer(s: Seq<u8>) -> Option<(u32, StreamFlags)> {
    if s.len() < 12 {
        Option::None
    } else if !(s[10] == 0x59 && s[11] == 0x5A) {
        Option::None
    } else if s[8] != 0 {
        Option::None
    } else {
        match check_kind_of(s[9]) {
            Option::None => Option::None,
            Option::Some(f) => {
                if le32_of(s.subrange(0, 4)) == crc32_of(s.subrange(4, 10)) {
                    Option::Some((le32_of(s.subrange(4, 8)) as u32, f))
                } else {
                    Option::None
                }
            },
        }
    }
}

/// The end of every .xz stream.
#[derive(Debug, Clone)]
pub struct StreamFooter {
    /// The size of the index field, stored as `(bytes / 4) - 1`.
    pub backward_size: u32,
    pub stream_flags: StreamFlags,
}

impl StreamFooter {
    /// The twelve bytes this footer encodes to.
    pub open spec fn encoding_spec(self) -> Seq<u8> {
        let body = le32_bytes(self.backward_size) + flag_bytes(self.stream_flags);
        le32_bytes(crc32_of(body)) + body + seq![0x59u8, 0x5Au8]
    }

    /// Encode the footer: the CRC32 of the six following bytes, the
    /// backward size, the flags, and the closing magic.
    pub fn encoding(&self) -> (r: Vec<u8>)
        ensures
            r@ == self.encoding_spec(),
    {
        let mut body = le32_to_bytes(self.backward_size);
        let mut fl = self.stream_flags.flag_encoding();
        body.append(&mut fl);
        let crc = crate::crc::crc32_range(&body, 0, 6);
        proof {
            assert(body@.subrange(0, 6) =~= body@);
        }
        let mut r = le32_to_bytes(crc);
        r.append(&mut body);
        r.push(0x59);
        r.push(0x5A);
        proof {
            assert(r@ =~= self.encoding_spec());
        }
        r
    }

    /// Encoding a footer and parsing it back yields the same fields.
    pub proof fn lemma_encoding_round_trip(self)
        ensures
            parse_stream_footer(self.encoding_spec()) == Option::Some(
                (self.backward_size, self.stream_flags),
            ),
    {
        let s = self.encoding_spec();
        let body = le32_bytes(self.backward_size) + flag_bytes(self.stream_flags);
        let crc = crc32_of(body);
        crate::reader::lemma_le32_bytes_value(crc);
        crate::reader::lemma_le32_bytes_value(self.backward_size);
        assert(s.subrange(0, 4) =~= le32_bytes(crc));
        assert(s.subrange(4, 10) =~= body);
        assert(s.subrange(4, 8) =~= le32_bytes(self.backward_size));
        assert(s[9] == crate::stream_flags::kind_byte(self.stream_flags));
        assert(check_kind_of(s[9]) == Option::Some(self.stream_flags));
    }

    /// Read and check the twelve footer bytes.
    pub fn decode(src: &mut RecordedReader) -> (r: Result<StreamFooter, DecodeError>)
        requires
            old(src).wf(),
        ensures
            final(src).wf(),
            final(src).src() == old(src).src(),
            final(src).mark() == old(src).mark(),
            final(src).pos() >= old(src).pos(),
            match r {
                Ok(f) => {
                    &&& old(src).pos() + 12 <= old(src).src().len()
                    &&& parse_stream_footer(old(src).src().skip(old(src).pos())) == Option::Some(
                        (f.backward_size, f.stream_flags),
                    )
                    &&& final(src).pos() == old(src).pos() + 12
                },
                Err(e) => {
                    ||| (e == DecodeError::EndOfInput && old(src).pos() + 12 > old(
                        src,
                    ).src().len())
                    ||| (e == DecodeError::StreamDecodeError(StreamDecodeError::InvalidFooter)
                        && old(src).pos() + 12 <= old(src).src().len() && parse_stream_footer(
                        old(src).src().skip(old(src).pos()),
                    ) is None)
                },
            },
    {
        let ghost s = old(src).src().skip(old(src).pos());
        let v = match src.read_bytes(12) {
            Ok(v) => v,
            Err(e) => {
                return Err(e);
            },
        };
        proof {
            assert forall|i: int| 0 <= i < 12 implies v@[i] == s[i] by {
                assert(s[i] == old(src).src()[old(src).pos() + i]);
            }
        }
        if !(v[10] == 0x59 && v[11] == 0x5A) {
            return Err(DecodeError::StreamDecodeError(StreamDecodeError::InvalidFooter));
        }
        let stream_flags = match StreamFlags::try_from(v[8], v[9]) {
            Ok(f) => f,
            Err(_) => {
                return Err(DecodeError::StreamDecodeError(StreamDecodeError::InvalidFooter));
            },
        };
        let actual = crc32_range(&v, 4, 10);
        let expected = (v[0] as u32) + (v[1] as u32) * 0x100 + (v[2] as u32) * 0x1_0000 + (v[3]
            as u32) * 0x100_0000;
        let backward_size = (v[4] as u32) + (v[5] as u32) * 0x100 + (v[6] as u32) * 0x1_0000 + (v[7]
            as u32) * 0x100_0000;
        proof {
            assert(v@.subrange(4, 10) =~= s.subrange(4, 10));
            assert(v@.subrange(0, 4) =~= s.subrange(0, 4));
            assert(v@.subrange(4, 8) =~= s.subrange(4, 8));
            assert(expected as nat == le32_of(s.subrange(0, 4)));
            assert(backward_size as nat == le32_of(s.subrange(4, 8)));
        }
        if actual != expected {
            return Err(DecodeError::StreamDecodeError(StreamDecodeError::InvalidFooter));
        }
        Ok(StreamFooter { backward_size, stream_flags })
    }
}

} // verus!
