//! The stream index: one size record per block, padding, and a CRC32.

use vstd::prelude::*;

use crate::crc::crc32_of;
use crate::error::BlockDecodeError;
use crate::error::DecodeError;
use crate::filter::lemma_skip_skip;
use crate::reader::le32_of;
use crate::reader::RecordedReader;
use crate::vli::fail_error;
use crate::vli::vli_parse;
use crate::vli::ParseFail;
use crate::vli::VarLengthInt;
use crate::vli::VliOutcome;

verus! {

/// The two sizes the index stores for one block.
#[derive(Debug, Clone, Copy, PartialEq, Eq, Structural)]
pub struct IndexRecord {
    pub uncompressed_size: u64,
    pub unpadded_size: u64,
}

/// Parse `count` index records starting at offset `i` of `s`.
pub open spec fn parse_records(s: Seq<u8>, i: int, count: int) -> Option<(Seq<IndexRecord>, int)>
    decreases count,
{
    if count <= 0 {
        Option::Some((Seq::empty(), i))
    } else {
        match vli_parse(s.skip(i)) {
            VliOutcome::Value { value: u, len: l1 } => {
                match vli_parse(s.skip(i + l1)) {
                    VliOutcome::Value { value: p, len: l2 } => {
                        let rec = IndexRecord {
                            uncompressed_size: u as u64,
                            unpadded_size: p as u64,
                        };
                        match parse_records(s, i + l1 + l2, count - 1) {
                            Option::Some((rs, e)) => Option::Some((seq![rec] + rs, e)),
                            Option::None => Option::None,
                        }
                    },
                    _ => Option::None,
                }
            },
            _ => Option::None,
        }
    }
}

/// Why the record list fails: the kind of the first failing size field.
pub open spec fn records_fail(s: Seq<u8>, i: int, count: int) -> ParseFail
    decreases count,
{
    if count <= 0 {
        ParseFail::Fine
    } else {
        match vli_parse(s.skip(i)) {
            VliOutcome::Overflow => ParseFail::VliBad,
            VliOutcome::Truncated => ParseFail::Truncated,
            VliOutcome::Value { value: u, len: l1 } => {
                match vli_parse(s.skip(i + l1)) {
                    VliOutcome::Overflow => ParseFail::VliBad,
                    VliOutcome::Truncated => ParseFail::Truncated,
                    VliOutcome::Value { value: p, len: l2 } => records_fail(
                        s,
                        i + l1 + l2,
                        count - 1,
                    ),
                }
            },
        }
    }
}

/// Why parsing the whole index fails, mirroring `parse_block_index` stage
/// by stage: the error owed is the malformed-index kind unless a size
/// field was a bad variable-length integer or the input ran out.
pub open spec fn block_index_fail(s: Seq<u8>) -> ParseFail {
    if s.len() < 1 {
        ParseFail::Truncated
    } else if s[0] != 0 {
        ParseFail::Malformed
    } else {
        match vli_parse(s.skip(1)) {
            VliOutcome::Overflow => ParseFail::VliBad,
            VliOutcome::Truncated => ParseFail::Truncated,
            VliOutcome::Value { value: count, len: l } => {
                match parse_records(s, 1 + l, count as int) {
                    Option::None => records_fail(s, 1 + l, count as int),
                    Option::Some((recs, i2)) => {
                        let pad = (4 - (i2 % 4)) % 4;
                        let total = i2 + pad + 4;
                        if s.len() < i2 + pad {
                            ParseFail::Truncated
                        } else if exists|j: int| i2 <= j < i2 + pad && s[j] != 0 {
                            ParseFail::Malformed
                        } else if s.len() < total {
                            ParseFail::Truncated
                        } else if le32_of(s.subrange(i2 + pad, total)) != crc32_of(
                            s.subrange(0, i2 + pad),
                        ) {
                            ParseFail::Malformed
                        } else {
                            ParseFail::Fine
                        }
                    },
                }
            },
        }
    }
}

/// Parse the whole index at the front of `s`: a zero indicator byte, a
/// record count, the records, zero padding to a four-byte boundary, and
/// a CRC32 over everything before it.
pub open spec fn parse_block_index(s: Seq<u8>) -> Option<(Seq<IndexRecord>, int)> {
    if s.len() < 1 {
        Option::None
    } else if s[0] != 0 {
        Option::None
    } else {
        match vli_parse(s.skip(1)) {
            VliOutcome::Value { value: count, len: l } => {
                match parse_records(s, 1 + l, count as int) {
                    Option::Some((recs, i2)) => {
                        let pad = (4 - (i2 % 4)) % 4;
                        let total = i2 + pad + 4;
                        if s.len() < total {
                            Option::None
                        } else if exists|j: int| i2 <= j < i2 + pad && s[j] != 0 {
                            Option::None
                        } else if le32_of(s.subrange(i2 + pad, total)) != crc32_of(
                            s.subrange(0, i2 + pad),
                        ) {
                            Option::None
                        } else {
                            Option::Some((recs, total))
                        }
                    },
                    Option::None => Option::None,
                }
            },
            _ => Option::None,
        }
    }
}

/// The index that closes the block sequence of a stream.
#[derive(Debug, Clone)]
pub struct BlockIndex {
    pub records: Vec<IndexRecord>,
}

impl BlockIndex {
    /// Read and check the whole index.
    #[verifier::rlimit(100)]
    pub fn decode(src: &mut RecordedReader) -> (r: Result<BlockIndex, DecodeError>)
        requires
            old(src).wf(),
        ensures
            final(src).wf(),
            final(src).src() == old(src).src(),
            final(src).pos() >= old(src).pos(),
            final(src).mark() == old(src).pos(),
            match r {
                Ok(x) => match parse_block_index(old(src).src().skip(old(src).pos())) {
                    Option::Some((recs, total)) => x.records@ == recs && final(src).pos() == old(
                        src,
                    ).pos() + total,
                    Option::None => false,
                },
                Err(e) => {
                    &&& parse_block_index(old(src).src().skip(old(src).pos())) is None
                    &&& block_index_fail(old(src).src().skip(old(src).pos())) != ParseFail::Fine
                    &&& e == fail_error(
                        block_index_fail(old(src).src().skip(old(src).pos())),
                        DecodeError::BlockDecodeError(BlockDecodeError::InvalidIndex),
                    )
                },
            },
    {
        let ghost pos0 = old(src).pos();
        let ghost s = old(src).src().skip(pos0);
        src.reset_recording();
        let indicator = match src.read_u8() {
            Ok(b) => b,
            Err(e) => {
                return Err(e);
            },
        };
        proof {
            assert(s[0] == old(src).src()[pos0]);
        }
        if indicator != 0 {
            return Err(DecodeError::BlockDecodeError(BlockDecodeError::InvalidIndex));
        }
        proof {
            lemma_skip_skip(old(src).src(), pos0, 1);
        }
        let count = match VarLengthInt::decode(src) {
            Ok(v) => v,
            Err(e) => {
                return Err(e);
            },
        };
        let ghost after_count = src.pos() - pos0;
        let mut records: Vec<IndexRecord> = Vec::new();
        let mut k: u64 = 0;
        while k < count.0
            invariant
                src.wf(),
                src.src() == old(src).src(),
                src.mark() == pos0,
                src.pos() >= pos0,
                s == old(src).src().skip(pos0),
                pos0 == old(src).pos(),
                k <= count.0,
                parse_records(s, after_count, count.0 as int) is None ==> parse_block_index(
                    s,
                ) is None && block_index_fail(s) == records_fail(s, after_count, count.0 as int),
                records_fail(s, after_count, count.0 as int) == records_fail(
                    s,
                    src.pos() - pos0,
                    count.0 - k,
                ),
                parse_records(s, after_count, count.0 as int) == (match parse_records(
                    s,
                    src.pos() - pos0,
                    count.0 - k,
                ) {
                    Option::Some((rs, e)) => Option::Some((records@ + rs, e)),
                    Option::None => Option::None::<(Seq<IndexRecord>, int)>,
                }),
            decreases count.0 - k,
        {
            proof {
                lemma_skip_skip(old(src).src(), pos0, src.pos() - pos0);
            }
            let ghost cur = src.pos() - pos0;
            let u = match VarLengthInt::decode(src) {
                Ok(v) => v,
                Err(e) => {
                    return Err(e);
                },
            };
            proof {
                lemma_skip_skip(old(src).src(), pos0, src.pos() - pos0);
            }
            let p = match VarLengthInt::decode(src) {
                Ok(v) => v,
                Err(e) => {
                    return Err(e);
                },
            };
            let rec = IndexRecord { uncompressed_size: u.0, unpadded_size: p.0 };
            records.push(rec);
            k = k + 1;
            proof {
                match vli_parse(s.skip(cur)) {
                    VliOutcome::Value { value: _, len: l1 } => {
                        match vli_parse(s.skip(cur + l1)) {
                            VliOutcome::Value { value: _, len: l2 } => {
                                match parse_records(s, cur + l1 + l2, count.0 - k) {
                                    Option::Some((rs, e)) => {
                                        assert(records@.drop_last() + (seq![rec] + rs)
                                            =~= records@ + rs);
                                    },
                                    Option::None => {},
                                }
                            },
                            _ => {},
                        }
                    },
                    _ => {},
                }
            }
        }
        proof {
            assert(records@ + Seq::<IndexRecord>::empty() =~= records@);
        }
        let consumed = src.len();
        let ghost i2 = src.pos() - pos0;
        let padding_len = (4 - (consumed % 4)) % 4;
        let padding = match src.read_bytes(padding_len) {
            Ok(v) => v,
            Err(e) => {
                return Err(e);
            },
        };
        let mut pi: usize = 0;
        let mut all_zero = true;
        while pi < padding.len()
            invariant
                pi <= padding.len(),
                all_zero == (forall|j: int| 0 <= j < pi ==> padding@[j] == 0),
            decreases padding.len() - pi,
        {
            if padding[pi] != 0 {
                all_zero = false;
            }
            pi = pi + 1;
        }
        if !all_zero {
            proof {
                let j = choose|j: int| 0 <= j < padding@.len() && padding@[j] != 0;
                assert(padding@[j] == old(src).src()[pos0 + i2 + j]);
                assert(s[i2 + j] == old(src).src()[pos0 + i2 + j]);
                assert(s[i2 + j] != 0 && i2 <= i2 + j < i2 + padding_len);
            }
            return Err(DecodeError::BlockDecodeError(BlockDecodeError::InvalidIndex));
        }
        proof {
            assert forall|j: int| i2 <= j < i2 + padding_len implies s[j] == 0 by {
                assert(padding@[j - i2] == old(src).src()[pos0 + j]);
                assert(s[j] == old(src).src()[pos0 + j]);
            }
        }
        let actual = src.crc32();
        proof {
            assert(src.recording() =~= s.subrange(0, i2 + padding_len));
        }
        let expected = match src.read_le_u32() {
            Ok(v) => v,
            Err(e) => {
                return Err(e);
            },
        };
        proof {
            let t = old(src).src().skip(pos0 + i2 + padding_len);
            assert(t.subrange(0, 4) =~= s.subrange(i2 + padding_len, i2 + padding_len + 4));
            assert(le32_of(t) == le32_of(s.subrange(i2 + padding_len, i2 + padding_len + 4))) by {
                assert(t.subrange(0, 4)[0] == t[0]);
                assert(t.subrange(0, 4)[1] == t[1]);
                assert(t.subrange(0, 4)[2] == t[2]);
                assert(t.subrange(0, 4)[3] == t[3]);
            }
        }
        if actual != expected {
            return Err(DecodeError::BlockDecodeError(BlockDecodeError::InvalidIndex));
        }
        Ok(BlockIndex { records })
    }
}

} // verus!
