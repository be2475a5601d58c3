//! The container driver: stream header, blocks, index, footer.

use vstd::prelude::*;

use crate::block_header::parse_block_header;
use crate::block_header::BlockHeader;
use crate::crc::crc32_of;
use crate::crc::crc32_range;
use crate::crc::crc64_of;
use crate::crc::crc64_range;
use crate::error::BlockDecodeError;
use crate::error::DecodeError;
use crate::error::StreamDecodeError;
use crate::index::parse_block_index;
use crate::index::BlockIndex;
use crate::lzma2_decoder::decode_lzma2;
use crate::reader::le32_of;
use crate::reader::le64_of;
use crate::reader::RecordedReader;
use crate::stream_flags::StreamFlags;
use crate::stream_footer::parse_stream_footer;
use crate::stream_footer::StreamFooter;
use crate::stream_header::parse_stream_header;
use crate::stream_header::StreamHeader;

verus! {

/// One block's bookkeeping: the span `[start, end)` of the output it
/// decoded to, where in the input its stored check begins, and where its
/// block header begins (a well-formed header parses there).
pub open spec fn block_check_ok(
    data: Seq<u8>,
    f: StreamFlags,
    out: Seq<u8>,
    m: (int, int, int, int),
) -> bool {
    &&& 0 <= m.0 <= m.1 <= out.len()
    &&& 12 <= m.3 < m.2
    &&& parse_block_header(data.skip(m.3)) is Some
    &&& match f {
        StreamFlags::NoCheck => true,
        StreamFlags::Crc32 => m.2 + 4 <= data.len() && le32_of(data.skip(m.2)) == crc32_of(
            out.subrange(m.0, m.1),
        ),
        StreamFlags::Crc64 => m.2 + 8 <= data.len() && le64_of(data.skip(m.2)) == crc64_of(
            out.subrange(m.0, m.1),
        ),
        StreamFlags::Sha256 => false,
    }
}

/// The block marks partition the whole output, in order.
pub open spec fn marks_chain(out: Seq<u8>, marks: Seq<(int, int, int, int)>) -> bool {
    &&& (marks.len() == 0 ==> out.len() == 0)
    &&& (marks.len() > 0 ==> marks[0].0 == 0 && marks[marks.len() - 1].1 == out.len())
    &&& (forall|i: int| 0 <= i < marks.len() - 1 ==> (#[trigger] marks[i]).1 == marks[i + 1].0)
}

/// Every block's stored check equals the one recomputed from the block's
/// own slice of the plaintext, and the slices cover the plaintext.
pub open spec fn blocks_checked(
    data: Seq<u8>,
    f: StreamFlags,
    out: Seq<u8>,
    marks: Seq<(int, int, int, int)>,
) -> bool {
    &&& marks_chain(out, marks)
    &&& (forall|i: int| 0 <= i < marks.len() ==> block_check_ok(data, f, out, #[trigger] marks[i]))
}

/// What a successful decode guarantees about the raw input and output:
/// the input opens with a well-formed stream header; a stream footer
/// parses somewhere in the input with the same flags; and block marks
/// partition the output with every stored check matching its slice.
pub open spec fn decode_xz_post(data: Seq<u8>, out: Seq<u8>) -> bool {
    &&& parse_stream_header(data) is Some
    &&& exists|i: int|
        0 <= i && (match parse_stream_footer(#[trigger] data.skip(i)) {
            Option::Some((bs, f2)) => parse_stream_header(data) == Option::Some(f2),
            Option::None => false,
        })
    &&& exists|f: StreamFlags, marks: Seq<(int, int, int, int)>|
        parse_stream_header(data) == Option::Some(f) && #[trigger] blocks_checked(
            data,
            f,
            out,
            marks,
        )
}

/// A stream whose whole shape is fixed by the framing alone: a valid
/// header, no blocks, a zero-record index, and a footer whose flags and
/// backward size agree. Decoding such a stream must succeed.
pub open spec fn empty_stream_shape(data: Seq<u8>) -> bool {
    &&& data.len() > 12
    &&& parse_stream_header(data) is Some
    &&& data[12] == 0
    &&& match parse_block_index(data.skip(12)) {
        Option::Some((recs, t)) => recs.len() == 0 && (match parse_stream_footer(
            data.skip(12 + t),
        ) {
            Option::Some((bs, f2)) => Option::Some(f2) == parse_stream_header(data) && (bs as int
                + 1) * 4 == t,
            Option::None => false,
        }),
        Option::None => false,
    }
}

/// A stream identical in shape to `empty_stream_shape` except that the
/// footer's flags differ from the header's. Decoding such a stream must
/// report the header/footer mismatch.
pub open spec fn empty_stream_mismatch(data: Seq<u8>) -> bool {
    &&& data.len() > 12
    &&& parse_stream_header(data) is Some
    &&& data[12] == 0
    &&& match parse_block_index(data.skip(12)) {
        Option::Some((recs, t)) => recs.len() == 0 && (match parse_stream_footer(
            data.skip(12 + t),
        ) {
            Option::Some((bs, f2)) => Option::Some(f2) != parse_stream_header(data),
            Option::None => false,
        }),
        Option::None => false,
    }
}

/// A block's check stays valid when the output grows past its span.
proof fn lemma_block_check_stable(
    data: Seq<u8>,
    f: StreamFlags,
    grown: Seq<u8>,
    out: Seq<u8>,
    m: (int, int, int, int),
)
    requires
        block_check_ok(data, f, out, m),
        crate::lzma_decoder::seq_extends(grown, out),
    ensures
        block_check_ok(data, f, grown, m),
{
    assert(grown.subrange(m.0, m.1) =~= out.subrange(m.0, m.1));
}

/// A parsed block header is at least eight bytes and lies inside `s`.
pub proof fn lemma_block_header_size(s: Seq<u8>)
    ensures
        match parse_block_header(s) {
            Option::Some(v) => 8 <= v.size <= s.len(),
            Option::None => true,
        },
{
}

/// Read the stored check that follows a block body and compare it against
/// the check recomputed from the block's plaintext, `data[start..]`.
///
/// On success the stored value equals the recomputed one; a mismatch is a
/// checksum error, and a SHA-256 check is not computed here.
pub fn verify_block_check(
    flags: &StreamFlags,
    data: &Vec<u8>,
    start: usize,
    src: &mut RecordedReader,
) -> (r: Result<(), DecodeError>)
    requires
        old(src).wf(),
        start <= data.len(),
    ensures
        final(src).wf(),
        final(src).src() == old(src).src(),
        final(src).pos() >= old(src).pos(),
        match r {
            Ok(()) => match *flags {
                StreamFlags::NoCheck => final(src).pos() == old(src).pos(),
                StreamFlags::Crc32 => {
                    &&& old(src).pos() + 4 <= old(src).src().len()
                    &&& le32_of(old(src).src().skip(old(src).pos())) == crc32_of(
                        data@.skip(start as int),
                    )
                    &&& final(src).pos() == old(src).pos() + 4
                },
                StreamFlags::Crc64 => {
                    &&& old(src).pos() + 8 <= old(src).src().len()
                    &&& le64_of(old(src).src().skip(old(src).pos())) == crc64_of(
                        data@.skip(start as int),
                    )
                    &&& final(src).pos() == old(src).pos() + 8
                },
                StreamFlags::Sha256 => false,
            },
            Err(e) => {
                ||| (e == DecodeError::EndOfInput && (match *flags {
                    StreamFlags::Crc32 => old(src).pos() + 4 > old(src).src().len(),
                    StreamFlags::Crc64 => old(src).pos() + 8 > old(src).src().len(),
                    _ => false,
                }))
                ||| (e == DecodeError::BlockDecodeError(BlockDecodeError::ChecksumMismatch)
                    && match *flags {
                    StreamFlags::Crc32 => le32_of(old(src).src().skip(old(src).pos()))
                        != crc32_of(data@.skip(start as int)),
                    StreamFlags::Crc64 => le64_of(old(src).src().skip(old(src).pos()))
                        != crc64_of(data@.skip(start as int)),
                    _ => false,
                })
                ||| (e == DecodeError::BlockDecodeError(BlockDecodeError::UnsupportedCheck)
                    && *flags == StreamFlags::Sha256)
            },
        },
{
    proof {
        assert(data@.subrange(start as int, data@.len() as int) =~= data@.skip(start as int));
    }
    match flags {
        StreamFlags::NoCheck => Ok(()),
        StreamFlags::Crc32 => {
            let stored = match src.read_le_u32() {
                Ok(v) => v,
                Err(e) => {
                    return Err(e);
                },
            };
            let actual = crc32_range(data, start, data.len());
            if stored == actual {
                Ok(())
            } else {
                Err(DecodeError::BlockDecodeError(BlockDecodeError::ChecksumMismatch))
            }
        },
        StreamFlags::Crc64 => {
            let stored = match src.read_le_u64() {
                Ok(v) => v,
                Err(e) => {
                    return Err(e);
                },
            };
            let actual = crc64_range(data, start, data.len());
            if stored == actual {
                Ok(())
            } else {
                Err(DecodeError::BlockDecodeError(BlockDecodeError::ChecksumMismatch))
            }
        },
        StreamFlags::Sha256 => Err(
            DecodeError::BlockDecodeError(BlockDecodeError::UnsupportedCheck),
        ),
    }
}

/// Decode one whole .xz stream held in `data` and return its plaintext.
///
/// The stream header and footer must carry the same flags, every block
/// header, the index and the footer must carry correct CRC32 fields, the
/// index must count the blocks, and each block's check must match its
/// decoded plaintext.
#[verifier::rlimit(100)]
pub fn decode_xz(data: Vec<u8>) -> (r: Result<Vec<u8>, DecodeError>)
    ensures
        match r {
            Ok(out) => decode_xz_post(data@, out@),
            Err(e) => true,
        },
        empty_stream_shape(data@) ==> (match r {
            Ok(out) => out@ == Seq::<u8>::empty(),
            Err(_) => false,
        }),
        empty_stream_mismatch(data@) ==> r == Result::<Vec<u8>, DecodeError>::Err(
            DecodeError::StreamDecodeError(StreamDecodeError::HeaderFooterMismatch),
        ),
        r == Result::<Vec<u8>, DecodeError>::Err(
            DecodeError::StreamDecodeError(StreamDecodeError::InvalidHeader),
        ) ==> parse_stream_header(data@) is None,
        r == Result::<Vec<u8>, DecodeError>::Err(
            DecodeError::BlockDecodeError(BlockDecodeError::InvalidData),
        ) ==> exists|j: int| 0 <= j < data@.len() && #[trigger] data@[j] != 0,
        r == Result::<Vec<u8>, DecodeError>::Err(
            DecodeError::StreamDecodeError(StreamDecodeError::HeaderFooterMismatch),
        ) ==> parse_stream_header(data@) is Some && exists|i: int|
            0 <= i && (match parse_stream_footer(#[trigger] data@.skip(i)) {
                Option::Some((bs, f2)) => parse_stream_header(data@) != Option::Some(f2),
                Option::None => false,
            }),
{
    let mut src = RecordedReader::new(data);
    let ghost data_view = src.src();
    proof {
        assert(data_view.skip(0) =~= data_view);
    }
    let header = match StreamHeader::decode(&mut src) {
        Ok(h) => h,
        Err(e) => {
            return Err(e);
        },
    };
    let mut output: Vec<u8> = Vec::new();
    let mut blocks: u64 = 0;
    let ghost mut marks: Seq<(int, int, int, int)> = Seq::empty();
    loop
        invariant
            src.wf(),
            src.src() == data_view,
            data_view == data@,
            src.pos() >= 12,
            blocks <= src.pos(),
            parse_stream_header(data_view) == Option::Some(header.flags),
            blocks_checked(data_view, header.flags, output@, marks),
            (12 < data_view.len() && data_view[12] == 0) ==> (src.pos() == 12 && blocks == 0
                && output@ == Seq::<u8>::empty()),
        decreases src.src().len() - src.pos(),
    {
        let next = match src.peek_u8() {
            Some(b) => b,
            None => {
                return Err(DecodeError::EndOfInput);
            },
        };
        if next == 0 {
            break ;
        }
        proof {
            lemma_block_header_size(src.src().skip(src.pos()));
        }
        let ghost header_pos = src.pos();
        let block_header = match BlockHeader::decode(&mut src) {
            Ok(h) => h,
            Err(e) => {
                return Err(e);
            },
        };
        // The LZMA2 filter is the last of the chain; its declared
        // dictionary size bounds every match distance of this block.
        if block_header.filters.len() == 0 {
            return Err(DecodeError::BlockDecodeError(BlockDecodeError::InvalidHeader));
        }
        let dict_size = match block_header.filters[block_header.filters.len() - 1] {
            crate::filter::Filter::Lzma2 { dict_size } => dict_size,
        };
        let start = output.len();
        let ghost out_before = output@;
        match decode_lzma2(&mut src, &mut output, dict_size) {
            Ok(()) => (),
            Err(e) => {
                return Err(e);
            },
        }
        // Zero padding up to the next four-byte boundary of the stream.
        let pos = src.position();
        let pad = (4 - (pos % 4)) % 4;
        let padding = match src.read_bytes(pad) {
            Ok(v) => v,
            Err(e) => {
                return Err(e);
            },
        };
        let mut pi: usize = 0;
        let mut pad_zero = true;
        while pi < padding.len()
            invariant
                pi <= padding.len(),
                pad_zero == (forall|j: int| 0 <= j < pi ==> padding@[j] == 0),
            decreases padding.len() - pi,
        {
            if padding[pi] != 0 {
                pad_zero = false;
            }
            pi = pi + 1;
        }
        if !pad_zero {
            proof {
                let j = choose|j: int| 0 <= j < padding@.len() && padding@[j] != 0;
                assert(data_view[src.pos() - padding@.len() + j] == padding@[j]);
            }
            return Err(DecodeError::BlockDecodeError(BlockDecodeError::InvalidData));
        }
        let ghost check_pos = src.pos();
        match verify_block_check(&header.flags, &output, start, &mut src) {
            Ok(()) => (),
            Err(e) => {
                return Err(e);
            },
        }
        blocks = blocks + 1;
        proof {
            let m = (start as int, output@.len() as int, check_pos, header_pos);
            assert(output@.subrange(start as int, output@.len() as int) =~= output@.skip(
                start as int,
            ));
            assert forall|i: int| 0 <= i < marks.len() implies block_check_ok(
                data_view,
                header.flags,
                output@,
                #[trigger] marks[i],
            ) by {
                lemma_block_check_stable(data_view, header.flags, output@, out_before, marks[i]);
            }
            assert(block_check_ok(data_view, header.flags, output@, m));
            marks = marks.push(m);
        }
    }
    let index_start = src.position();
    let index = match BlockIndex::decode(&mut src) {
        Ok(x) => x,
        Err(e) => {
            return Err(e);
        },
    };
    let index_end = src.position();
    if index.records.len() as u64 != blocks {
        return Err(DecodeError::BlockDecodeError(BlockDecodeError::InvalidIndex));
    }
    let ghost footer_pos = src.pos();
    let footer = match StreamFooter::decode(&mut src) {
        Ok(f) => f,
        Err(e) => {
            return Err(e);
        },
    };
    if !(footer.stream_flags == header.flags) {
        proof {
            assert(match parse_stream_footer(data_view.skip(footer_pos)) {
                Option::Some((bs, f2)) => parse_stream_header(data@) != Option::Some(f2),
                Option::None => false,
            });
        }
        return Err(DecodeError::StreamDecodeError(StreamDecodeError::HeaderFooterMismatch));
    }
    // The footer's backward size must name the true size of the index
    // field, stored as a quarter of the byte count, minus one.
    if (footer.backward_size as u64 + 1) * 4 != (index_end - index_start) as u64 {
        return Err(DecodeError::StreamDecodeError(StreamDecodeError::InvalidFooter));
    }
    proof {
        assert(match parse_stream_footer(data_view.skip(footer_pos)) {
            Option::Some((bs, f2)) => parse_stream_header(data_view) == Option::Some(f2),
            Option::None => false,
        });
        assert(data@ == data_view);
        assert(decode_xz_post(data@, output@)) by {
            assert(blocks_checked(data@, header.flags, output@, marks));
            assert(parse_stream_header(data@) == Option::Some(header.flags));
            assert(match parse_stream_footer(data@.skip(footer_pos)) {
                Option::Some((bs, f2)) => parse_stream_header(data@) == Option::Some(f2),
                Option::None => false,
            });
        }
    }
    Ok(output)
}

} // verus!
