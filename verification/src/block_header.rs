//! The block header: size byte, flags, optional sizes, filter chain,
//! zero padding, and a CRC32 over everything before it.

use vstd::prelude::*;

use crate::block_flags::parse_block_flags;
use crate::block_flags::BlockFlags;
use crate::crc::crc32_of;
use crate::error::BlockDecodeError;
use crate::error::DecodeError;
use crate::filter::filter_fail;
use crate::filter::lemma_skip_skip;
use crate::filter::parse_filter;
use crate::filter::Filter;
use crate::reader::le32_of;
use crate::reader::RecordedReader;
use crate::vli::fail_error;
use crate::vli::vli_parse;
use crate::vli::ParseFail;
use crate::vli::VarLengthInt;
use crate::vli::VliOutcome;

verus! {

/// What a parsed block header holds, with its total encoded size.
pub struct BlockHeaderView {
    pub flags: BlockFlags,
    pub compressed_size: Option<u64>,
    pub uncompressed_size: Option<u64>,
    pub filters: Seq<Filter>,
    pub size: int,
}

/// Parse an optional nonzero variable-length size field at offset `i`.
pub open spec fn parse_opt_vli(s: Seq<u8>, i: int, enabled: bool) -> Option<(Option<u64>, int)> {
    if !enabled {
        Option::Some((Option::None, i))
    } else {
        match vli_parse(s.skip(i)) {
            VliOutcome::Value { value, len } => {
                if value == 0 {
                    Option::None
                } else {
                    Option::Some((Option::Some(value as u64), i + len))
                }
            },
            _ => Option::None,
        }
    }
}

/// Parse `count` filter records starting at offset `i`.
pub open spec fn parse_filters(s: Seq<u8>, i: int, count: int) -> Option<(Seq<Filter>, int)>
    decreases count,
{
    if count <= 0 {
        Option::Some((Seq::empty(), i))
    } else {
        match parse_filter(s.skip(i)) {
            Option::Some((f, n)) => match parse_filters(s, i + n, count - 1) {
                Option::Some((fs, e)) => Option::Some((seq![f] + fs, e)),
                Option::None => Option::None,
            },
            Option::None => Option::None,
        }
    }
}

/// Why an optional size field fails; meaningful when `parse_opt_vli`
/// yields nothing.
pub open spec fn opt_vli_fail(s: Seq<u8>, i: int, enabled: bool) -> ParseFail {
    if !enabled {
        ParseFail::Fine
    } else {
        match vli_parse(s.skip(i)) {
            VliOutcome::Overflow => ParseFail::VliBad,
            VliOutcome::Truncated => ParseFail::Truncated,
            VliOutcome::Value { value, len } => {
                if value == 0 {
                    ParseFail::Malformed
                } else {
                    ParseFail::Fine
                }
            },
        }
    }
}

/// Why the filter chain fails: the kind of the first failing record.
pub open spec fn filters_fail(s: Seq<u8>, i: int, count: int) -> ParseFail
    decreases count,
{
    if count <= 0 {
        ParseFail::Fine
    } else {
        match parse_filter(s.skip(i)) {
            Option::Some((f, n)) => filters_fail(s, i + n, count - 1),
            Option::None => filter_fail(s.skip(i)),
        }
    }
}

/// Why parsing a whole block header fails, mirroring `parse_block_header`
/// stage by stage: the error owed is the malformed-header kind unless a
/// size field was a bad variable-length integer or the input ran out.
pub open spec fn block_header_fail(s: Seq<u8>) -> ParseFail {
    if s.len() < 1 {
        ParseFail::Truncated
    } else if s[0] == 0 {
        ParseFail::Malformed
    } else if s.len() < 2 {
        ParseFail::Truncated
    } else {
        let total = (s[0] as int + 1) * 4;
        match parse_block_flags(s[1]) {
            Option::None => ParseFail::Malformed,
            Option::Some(flags) => match parse_opt_vli(s, 2, flags.has_compressed_size) {
                Option::None => opt_vli_fail(s, 2, flags.has_compressed_size),
                Option::Some((comp, i2)) => match parse_opt_vli(
                    s,
                    i2,
                    flags.has_uncompressed_size,
                ) {
                    Option::None => opt_vli_fail(s, i2, flags.has_uncompressed_size),
                    Option::Some((uncomp, i3)) => match parse_filters(
                        s,
                        i3,
                        flags.filter_count as int,
                    ) {
                        Option::None => filters_fail(s, i3, flags.filter_count as int),
                        Option::Some((fs, i4)) => {
                            if i4 > total - 4 {
                                ParseFail::Malformed
                            } else if s.len() < total - 4 {
                                ParseFail::Truncated
                            } else if exists|j: int| i4 <= j < total - 4 && s[j] != 0 {
                                ParseFail::Malformed
                            } else if s.len() < total {
                                ParseFail::Truncated
                            } else if le32_of(s.subrange(total - 4, total)) != crc32_of(
                                s.subrange(0, total - 4),
                            ) {
                                ParseFail::Malformed
                            } else {
                                ParseFail::Fine
                            }
                        },
                    },
                },
            },
        }
    }
}

/// Parse a whole block header at the front of `s`: reject a zero size
/// byte, reserved flag bits, zero size fields, unknown filters, nonzero
/// padding, and a wrong CRC32.
pub open spec fn parse_block_header(s: Seq<u8>) -> Option<BlockHeaderView> {
    if s.len() < 2 {
        Option::None
    } else if s[0] == 0 {
        Option::None
    } else {
        let total = (s[0] as int + 1) * 4;
        match parse_block_flags(s[1]) {
            Option::None => Option::None,
            Option::Some(flags) => match parse_opt_vli(s, 2, flags.has_compressed_size) {
                Option::None => Option::None,
                Option::Some((comp, i2)) => match parse_opt_vli(
                    s,
                    i2,
                    flags.has_uncompressed_size,
                ) {
                    Option::None => Option::None,
                    Option::Some((uncomp, i3)) => match parse_filters(
                        s,
                        i3,
                        flags.filter_count as int,
                    ) {
                        Option::None => Option::None,
                        Option::Some((fs, i4)) => {
                            if i4 > total - 4 {
                                Option::None
                            } else if s.len() < total {
                                Option::None
                            } else if exists|j: int| i4 <= j < total - 4 && s[j] != 0 {
                                Option::None
                            } else if le32_of(s.subrange(total - 4, total)) != crc32_of(
                                s.subrange(0, total - 4),
                            ) {
                                Option::None
                            } else {
                                Option::Some(
                                    (BlockHeaderView {
                                        flags,
                                        compressed_size: comp,
                                        uncompressed_size: uncomp,
                                        filters: fs,
                                        size: total,
                                    }),
                                )
                            }
                        },
                    },
                },
            },
        }
    }
}

/// One block header of an .xz stream.
#[derive(Debug, Clone)]
pub struct BlockHeader {
    pub flags: BlockFlags,
    pub compressed_size: Option<u64>,
    pub uncompressed_size: Option<u64>,
    pub filters: Vec<Filter>,
}

impl BlockHeader {
    /// Read and check one block header; the recording mark is left at the
    /// start of the header.
    #[verifier::rlimit(100)]
    pub fn decode(src: &mut RecordedReader) -> (r: Result<BlockHeader, DecodeError>)
        requires
            old(src).wf(),
        ensures
            final(src).wf(),
            final(src).src() == old(src).src(),
            final(src).pos() >= old(src).pos(),
            final(src).mark() == old(src).pos(),
            match r {
                Ok(h) => match parse_block_header(old(src).src().skip(old(src).pos())) {
                    Option::Some(v) => {
                        &&& h.flags == v.flags
                        &&& h.compressed_size == v.compressed_size
                        &&& h.uncompressed_size == v.uncompressed_size
                        &&& h.filters@ == v.filters
                        &&& final(src).pos() == old(src).pos() + v.size
                    },
                    Option::None => false,
                },
                Err(e) => {
                    &&& parse_block_header(old(src).src().skip(old(src).pos())) is None
                    &&& block_header_fail(old(src).src().skip(old(src).pos())) != ParseFail::Fine
                    &&& e == fail_error(
                        block_header_fail(old(src).src().skip(old(src).pos())),
                        DecodeError::BlockDecodeError(BlockDecodeError::InvalidHeader),
                    )
                },
            },
    {
        let ghost pos0 = old(src).pos();
        let ghost s = old(src).src().skip(pos0);
        src.reset_recording();
        let size_byte = match src.read_u8() {
            Ok(b) => b,
            Err(e) => {
                return Err(e);
            },
        };
        proof {
            assert(s[0] == old(src).src()[pos0]);
        }
        if size_byte == 0 {
            return Err(DecodeError::BlockDecodeError(BlockDecodeError::InvalidHeader));
        }
        let total: usize = (size_byte as usize + 1) * 4;
        let ghost total_g = (s[0] as int + 1) * 4;
        let flags = match BlockFlags::decode(src) {
            Ok(f) => f,
            Err(e) => {
                proof {
                    if s.len() >= 2 {
                        assert(s[1] == old(src).src()[pos0 + 1]);
                    }
                }
                return Err(e);
            },
        };
        proof {
            assert(s[1] == old(src).src()[pos0 + 1]);
        }
        let compressed_size: Option<u64>;
        if flags.has_compressed_size {
            proof {
                lemma_skip_skip(old(src).src(), pos0, 2);
            }
            let v = match VarLengthInt::decode(src) {
                Ok(v) => v,
                Err(e) => {
                    return Err(e);
                },
            };
            if v.0 == 0 {
                return Err(DecodeError::BlockDecodeError(BlockDecodeError::InvalidHeader));
            }
            compressed_size = Some(v.0);
        } else {
            compressed_size = None;
        }
        let ghost i2 = src.pos() - pos0;
        proof {
            assert(parse_opt_vli(s, 2, flags.has_compressed_size) == Option::Some(
                (compressed_size, i2),
            ));
        }
        let uncompressed_size: Option<u64>;
        if flags.has_uncompressed_size {
            proof {
                lemma_skip_skip(old(src).src(), pos0, i2);
            }
            let v = match VarLengthInt::decode(src) {
                Ok(v) => v,
                Err(e) => {
                    return Err(e);
                },
            };
            if v.0 == 0 {
                return Err(DecodeError::BlockDecodeError(BlockDecodeError::InvalidHeader));
            }
            uncompressed_size = Some(v.0);
        } else {
            uncompressed_size = None;
        }
        let ghost i3 = src.pos() - pos0;
        proof {
            assert(parse_opt_vli(s, i2, flags.has_uncompressed_size) == Option::Some(
                (uncompressed_size, i3),
            ));
        }
        let count = flags.filter_count;
        let mut filters: Vec<Filter> = Vec::new();
        let mut k: u8 = 0;
        while k < count
            invariant
                src.wf(),
                src.src() == old(src).src(),
                src.mark() == pos0,
                src.pos() >= pos0,
                s == old(src).src().skip(pos0),
                pos0 == old(src).pos(),
                k <= count,
                parse_filters(s, i3, count as int) is None ==> parse_block_header(s) is None
                    && block_header_fail(s) == filters_fail(s, i3, count as int),
                filters_fail(s, i3, count as int) == filters_fail(s, src.pos() - pos0, count - k),
                parse_filters(s, i3, count as int) == (match parse_filters(
                    s,
                    src.pos() - pos0,
                    count - k,
                ) {
                    Option::Some((fs, e)) => Option::Some((filters@ + fs, e)),
                    Option::None => Option::None::<(Seq<Filter>, int)>,
                }),
            decreases count - k,
        {
            proof {
                lemma_skip_skip(old(src).src(), pos0, src.pos() - pos0);
            }
            let ghost cur = src.pos() - pos0;
            let f = match Filter::decode(src) {
                Ok(f) => f,
                Err(e) => {
                    return Err(e);
                },
            };
            filters.push(f);
            k = k + 1;
            proof {
                match parse_filter(s.skip(cur)) {
                    Option::Some((pf, n)) => {
                        match parse_filters(s, cur + n, count - k) {
                            Option::Some((fs, e)) => {
                                assert(filters@.drop_last() + (seq![pf] + fs) =~= filters@ + fs);
                            },
                            Option::None => {},
                        }
                    },
                    Option::None => {},
                }
            }
        }
        proof {
            assert(filters@ + Seq::<Filter>::empty() =~= filters@);
        }
        let consumed = src.len();
        if consumed > total - 4 {
            return Err(DecodeError::BlockDecodeError(BlockDecodeError::InvalidHeader));
        }
        let ghost i4 = src.pos() - pos0;
        let padding_len = total - 4 - consumed;
        let padding = match src.read_bytes(padding_len) {
            Ok(v) => v,
            Err(e) => {
                return Err(e);
            },
        };
        let mut pi: usize = 0;
        let mut all_zero = true;
        while pi < padding.len()
            invariant
                pi <= padding.len(),
                all_zero == (forall|j: int| 0 <= j < pi ==> padding@[j] == 0),
            decreases padding.len() - pi,
        {
            if padding[pi] != 0 {
                all_zero = false;
            }
            pi = pi + 1;
        }
        if !all_zero {
            proof {
                let j = choose|j: int| 0 <= j < padding@.len() && padding@[j] != 0;
                assert(padding@[j] == old(src).src()[pos0 + i4 + j]);
                assert(s[i4 + j] == old(src).src()[pos0 + i4 + j]);
                assert(s[i4 + j] != 0 && i4 <= i4 + j < total_g - 4);
            }
            return Err(DecodeError::BlockDecodeError(BlockDecodeError::InvalidHeader));
        }
        proof {
            assert forall|j: int| i4 <= j < total_g - 4 implies s[j] == 0 by {
                assert(padding@[j - i4] == old(src).src()[pos0 + j]);
                assert(s[j] == old(src).src()[pos0 + j]);
            }
        }
        let actual = src.crc32();
        proof {
            assert(src.recording() =~= s.subrange(0, total_g - 4));
        }
        let expected = match src.read_le_u32() {
            Ok(v) => v,
            Err(e) => {
                return Err(e);
            },
        };
        proof {
            assert(old(src).src().skip(pos0 + total_g - 4).subrange(0, 4) =~= s.subrange(
                total_g - 4,
                total_g,
            ));
            assert(le32_of(old(src).src().skip(pos0 + total_g - 4)) == le32_of(
                s.subrange(total_g - 4, total_g),
            )) by {
                let t = old(src).src().skip(pos0 + total_g - 4);
                assert(t.subrange(0, 4)[0] == t[0]);
                assert(t.subrange(0, 4)[1] == t[1]);
                assert(t.subrange(0, 4)[2] == t[2]);
                assert(t.subrange(0, 4)[3] == t[3]);
            }
        }
        if actual != expected {
            return Err(DecodeError::BlockDecodeError(BlockDecodeError::InvalidHeader));
        }
        Ok(BlockHeader { flags, compressed_size, uncompressed_size, filters })
    }
}

} // verus!
