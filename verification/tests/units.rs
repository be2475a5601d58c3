//! Unit tests for the small pieces: variable-length integers, checksums,
//! stream flags, filter properties, and the range decoder.

use xz_rs::crc::Crc32;
use xz_rs::crc::Crc64;
use xz_rs::error::DecodeError;
use xz_rs::filter::Filter;
use xz_rs::lzma_decoder::LzmaDecoder;
use xz_rs::range_decoder::RangeDecoder;
use xz_rs::reader::RecordedReader;
use xz_rs::stream_flags::StreamFlags;
use xz_rs::vli::VarLengthInt;

#[test]
fn vli_round_trip_values() {
    let values: [u64; 8] = [
        0,
        1,
        0x7F,
        0x80,
        0x3FFF,
        0x4000,
        0x0123_4567_89AB_CDEF,
        0x7FFF_FFFF_FFFF_FFFF,
    ];
    for &v in values.iter() {
        let enc = VarLengthInt(v).encoding();
        assert!(enc.len() <= 9);
        let mut src = RecordedReader::new(enc.clone());
        let decoded = VarLengthInt::decode(&mut src).unwrap();
        assert_eq!(decoded.0, v);
        assert_eq!(src.position(), enc.len());
    }
}

#[test]
fn vli_zero_trailer_rejected() {
    let mut src = RecordedReader::new(vec![0x80, 0x00]);
    let r = VarLengthInt::decode(&mut src);
    assert!(matches!(r, Err(DecodeError::VliOverflowError)));
}

#[test]
fn vli_ten_bytes_rejected() {
    let mut bytes = vec![0x80u8; 9];
    bytes.push(0x01);
    let mut src = RecordedReader::new(bytes);
    let r = VarLengthInt::decode(&mut src);
    assert!(matches!(r, Err(DecodeError::VliOverflowError)));
}

#[test]
fn vli_truncated_rejected() {
    let mut src = RecordedReader::new(vec![0x80]);
    let r = VarLengthInt::decode(&mut src);
    assert!(matches!(r, Err(DecodeError::EndOfInput)));
}

#[test]
fn crc32_published_vector() {
    let mut crc = Crc32::new();
    crc.process_bytes(&b"123456789".to_vec());
    assert_eq!(crc.result(), 0xCBF4_3926);
}

#[test]
fn crc32_empty() {
    let crc = Crc32::new();
    assert_eq!(crc.result(), 0);
}

#[test]
fn crc32_byte_at_a_time_matches_bulk() {
    let mut a = Crc32::new();
    let mut b = Crc32::new();
    let data = b"hello, world".to_vec();
    a.process_bytes(&data);
    for &byte in data.iter() {
        b.process_next_byte(byte);
    }
    assert_eq!(a.result(), b.result());
}

#[test]
fn crc64_published_vector() {
    let mut crc = Crc64::new();
    crc.process_words(&b"123456789".to_vec());
    assert_eq!(crc.result(), 0x995D_C9BB_DF19_39FA);
}

#[test]
fn reader_recording_crc_matches_direct() {
    let data = vec![0x10u8, 0x20, 0x30, 0x40, 0x50];
    let mut src = RecordedReader::new(data.clone());
    let _ = src.read_u8().unwrap();
    let _ = src.read_u8().unwrap();
    let _ = src.read_u8().unwrap();
    let mut crc = Crc32::new();
    crc.process_bytes(&vec![0x10, 0x20, 0x30]);
    assert_eq!(src.crc32(), crc.result());
    assert_eq!(src.len(), 3);
    assert!(!src.is_empty());
}

#[test]
fn stream_flags_crc_covers_flag_bytes() {
    let mut crc = Crc32::new();
    crc.process_bytes(&vec![0x00, 0x01]);
    assert_eq!(StreamFlags::Crc32.crc_32(), crc.result());
    // The value from a known-good .xz file with a CRC32 check.
    assert_eq!(StreamFlags::Crc32.crc_32(), 0x36DE_2269);
}

#[test]
fn stream_flags_reject_bad_bytes() {
    assert!(StreamFlags::try_from(1, 0).is_err());
    assert!(StreamFlags::try_from(0, 2).is_err());
    assert!(StreamFlags::try_from(0, 4).is_ok());
    assert!(StreamFlags::try_from(0, 0x0A).is_ok());
}

#[test]
fn dict_size_property_round_trip() {
    for bits in 0u8..=40 {
        let f = Filter::try_new(0x21, &vec![bits]).unwrap();
        let props = f.properties();
        let Filter::Lzma2 { dict_size } = f;
        assert_eq!(props.len(), 1);
        let f2 = Filter::try_new(0x21, &props).unwrap();
        let Filter::Lzma2 { dict_size: ds2 } = f2;
        assert_eq!(dict_size, ds2);
    }
    assert_eq!(Filter::lzma2_dict_size(0), 4096);
    assert_eq!(Filter::lzma2_dict_size(1), 6144);
    assert_eq!(Filter::lzma2_dict_size(40), u32::MAX);
}

#[test]
fn filter_rejects_bad_inputs() {
    assert!(Filter::try_new(0x21, &vec![41]).is_err());
    assert!(Filter::try_new(0x21, &vec![0, 0]).is_err());
    assert!(Filter::try_new(0x22, &vec![0]).is_err());
}

#[test]
fn props_byte_out_of_range_rejected() {
    let mut dec = LzmaDecoder::new();
    assert!(matches!(
        dec.set_props(225),
        Err(DecodeError::LzmaError(
            xz_rs::error::Lzma2DecodeError::InvalidProperties
        ))
    ));
    // lc = 3 and lp = 2 make lc + lp exceed 4: (0*5 + 2)*9 + 3 = 21.
    assert!(dec.set_props(21).is_err());
    assert!(dec.set_props(0).is_ok());
    // lc = 3, lp = 0, pb = 2 is the common default: (2*5 + 0)*9 + 3 = 93.
    assert!(dec.set_props(93).is_ok());
}

#[test]
fn range_decoder_initialize_reads_five_bytes() {
    let mut src = RecordedReader::new(vec![0xFF, 0x01, 0x02, 0x03, 0x04, 0x99]);
    let mut rc = RangeDecoder::new();
    rc.initialize(&mut src).unwrap();
    assert_eq!(rc.range, u32::MAX);
    assert_eq!(rc.code, 0x0102_0304);
    assert_eq!(src.position(), 5);
}

#[test]
fn range_decoder_bit_updates_probability() {
    let mut src = RecordedReader::new(vec![0xAA; 4]);
    let mut rc = RangeDecoder::new();
    rc.range = u32::MAX;
    rc.code = 0;
    let mut prob: u16 = 0x400;
    let bit = rc.decode_bit(&mut src, &mut prob).unwrap();
    // The code is zero, far below the bound, so the bit is zero and the
    // probability of zero grows.
    assert!(!bit);
    assert_eq!(prob, 0x400 + ((0x800 - 0x400) >> 5));
}

#[test]
fn normalize_consumes_one_byte_when_narrow() {
    let mut src = RecordedReader::new(vec![0x7B]);
    let mut rc = RangeDecoder::new();
    rc.range = 0x00FF_FFFF;
    rc.code = 0x1234;
    rc.normalize(&mut src).unwrap();
    assert_eq!(rc.range, 0xFFFF_FF00);
    assert_eq!(rc.code, 0x0012_347B);
    assert_eq!(src.position(), 1);
}

#[test]
fn vli_encoding_bytes_exact() {
    assert_eq!(VarLengthInt(0).encoding(), vec![0x00]);
    assert_eq!(VarLengthInt(0x7F).encoding(), vec![0x7F]);
    assert_eq!(VarLengthInt(0x80).encoding(), vec![0x80, 0x01]);
    assert_eq!(VarLengthInt(0x3FFF).encoding(), vec![0xFF, 0x7F]);
}

#[test]
fn stream_header_encode_decode_round_trip() {
    let kinds = [
        StreamFlags::NoCheck,
        StreamFlags::Crc32,
        StreamFlags::Crc64,
        StreamFlags::Sha256,
    ];
    for &flags in kinds.iter() {
        let h = xz_rs::stream_header::StreamHeader { flags };
        let bytes = h.encode();
        assert_eq!(bytes.len(), 12);
        let mut src = RecordedReader::new(bytes);
        let back = xz_rs::stream_header::StreamHeader::decode(&mut src).unwrap();
        assert_eq!(back.flags, flags);
    }
}

#[test]
fn stream_footer_encode_decode_round_trip() {
    let f = xz_rs::stream_footer::StreamFooter {
        backward_size: 7,
        stream_flags: StreamFlags::Crc64,
    };
    let bytes = f.encoding();
    assert_eq!(bytes.len(), 12);
    let mut src = RecordedReader::new(bytes);
    let back = xz_rs::stream_footer::StreamFooter::decode(&mut src).unwrap();
    assert_eq!(back.backward_size, 7);
    assert_eq!(back.stream_flags, StreamFlags::Crc64);
}

#[test]
fn block_flags_encode_decode_round_trip() {
    let flags = xz_rs::block_flags::BlockFlags {
        filter_count: 3,
        has_compressed_size: true,
        has_uncompressed_size: false,
    };
    let bytes = flags.encode();
    let mut src = RecordedReader::new(bytes);
    let back = xz_rs::block_flags::BlockFlags::decode(&mut src).unwrap();
    assert_eq!(back, flags);
}

#[test]
fn filter_encoding_decode_round_trip() {
    let f = Filter::try_new(0x21, &vec![17]).unwrap();
    let bytes = f.encoding();
    let mut src = RecordedReader::new(bytes);
    let back = Filter::decode(&mut src).unwrap();
    assert_eq!(back, f);
}

#[test]
fn bad_stream_magic_rejected() {
    let mut file = vec![0xFD, 0x37, 0x7A, 0x58, 0x5A, 0x01, 0x00, 0x01];
    file.extend_from_slice(&[0x69, 0x22, 0xDE, 0x36]);
    let r = xz_rs::decode::decode_xz(file);
    assert!(matches!(
        r,
        Err(DecodeError::StreamDecodeError(
            xz_rs::error::StreamDecodeError::InvalidHeader
        ))
    ));
}

#[test]
fn truncated_stream_rejected() {
    let file = vec![0xFD, 0x37, 0x7A, 0x58, 0x5A, 0x00, 0x00];
    let r = xz_rs::decode::decode_xz(file);
    assert!(matches!(r, Err(DecodeError::EndOfInput)));
}
