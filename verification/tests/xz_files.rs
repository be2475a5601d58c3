//! End-to-end tests over whole hand-assembled .xz files, including
//! range-coded LZMA2 chunks produced by a small mirror encoder.

use xz_rs::decode::decode_xz;
use xz_rs::block_header::BlockHeader;
use xz_rs::error::BlockDecodeError;
use xz_rs::error::DecodeError;
use xz_rs::error::Lzma2DecodeError;
use xz_rs::error::StreamDecodeError;
use xz_rs::index::BlockIndex;
use xz_rs::reader::RecordedReader;

fn crc32b(data: &[u8]) -> u32 {
    let mut crc: u32 = 0xFFFF_FFFF;
    for &b in data {
        crc ^= b as u32;
        for _ in 0..8 {
            if crc & 1 == 1 {
                crc = (crc >> 1) ^ 0xEDB8_8320;
            } else {
                crc >>= 1;
            }
        }
    }
    crc ^ 0xFFFF_FFFF
}

fn vli_bytes(mut v: u64) -> Vec<u8> {
    let mut out = Vec::new();
    while v >= 0x80 {
        out.push((v as u8) | 0x80);
        v >>= 7;
    }
    out.push(v as u8);
    out
}

fn stream_header_bytes(kind: u8) -> Vec<u8> {
    let mut out = vec![0xFD, 0x37, 0x7A, 0x58, 0x5A, 0x00, 0x00, kind];
    out.extend_from_slice(&crc32b(&[0x00, kind]).to_le_bytes());
    out
}

fn block_header_bytes(dict_bits: u8) -> Vec<u8> {
    // size byte 2 -> 12 bytes total; one LZMA2 filter, no size fields.
    let mut out = vec![0x02, 0x00, 0x21, 0x01, dict_bits, 0x00, 0x00, 0x00];
    out.extend_from_slice(&crc32b(&out).to_le_bytes());
    out
}

fn index_bytes(records: &[(u64, u64)]) -> Vec<u8> {
    let mut out = vec![0x00];
    out.extend_from_slice(&vli_bytes(records.len() as u64));
    for &(u, p) in records {
        out.extend_from_slice(&vli_bytes(u));
        out.extend_from_slice(&vli_bytes(p));
    }
    while out.len() % 4 != 0 {
        out.push(0);
    }
    out.extend_from_slice(&crc32b(&out).to_le_bytes());
    out
}

fn footer_bytes(kind: u8, backward_size: u32) -> Vec<u8> {
    let mut body = backward_size.to_le_bytes().to_vec();
    body.extend_from_slice(&[0x00, kind]);
    let mut out = crc32b(&body).to_le_bytes().to_vec();
    out.extend_from_slice(&body);
    out.extend_from_slice(&[0x59, 0x5A]);
    out
}

/// Assemble a one-block file: header, block, body padding, check, index,
/// footer. `kind` is the check-kind code; only 0 and 1 are used here.
fn one_block_file(kind: u8, lzma2_body: &[u8], plaintext: &[u8]) -> Vec<u8> {
    let mut file = stream_header_bytes(kind);
    let header_len = 12u64;
    file.extend_from_slice(&block_header_bytes(0));
    file.extend_from_slice(lzma2_body);
    while file.len() % 4 != 0 {
        file.push(0);
    }
    let check_len: u64 = if kind == 1 { 4 } else { 0 };
    if kind == 1 {
        file.extend_from_slice(&crc32b(plaintext).to_le_bytes());
    }
    let unpadded = header_len + lzma2_body.len() as u64 + check_len;
    let index = index_bytes(&[(plaintext.len() as u64, unpadded)]);
    let backward = (index.len() / 4 - 1) as u32;
    file.extend_from_slice(&index);
    file.extend_from_slice(&footer_bytes(kind, backward));
    file
}

struct REnc {
    low: u64,
    range: u32,
    cache: u8,
    cache_size: u64,
    shifts: usize,
    out: Vec<u8>,
}

impl REnc {
    fn new() -> REnc {
        REnc { low: 0, range: 0xFFFF_FFFF, cache: 0, cache_size: 1, shifts: 0, out: Vec::new() }
    }

    fn shift_low(&mut self) {
        if (self.low as u32) < 0xFF00_0000 || (self.low >> 32) != 0 {
            let carry = (self.low >> 32) as u8;
            let mut temp = self.cache;
            loop {
                self.out.push(temp.wrapping_add(carry));
                temp = 0xFF;
                self.cache_size -= 1;
                if self.cache_size == 0 {
                    break;
                }
            }
            self.cache = (self.low >> 24) as u8;
        }
        self.cache_size += 1;
        self.low = (((self.low as u32) << 8) as u32) as u64;
    }

    fn bit(&mut self, prob: &mut u16, b: u32) {
        let bound = (self.range >> 11) * (*prob as u32);
        if b == 0 {
            self.range = bound;
            *prob += (0x800 - *prob) >> 5;
        } else {
            self.low += bound as u64;
            self.range -= bound;
            *prob -= *prob >> 5;
        }
        while self.range < 0x100_0000 {
            self.range <<= 8;
            self.shifts += 1;
            self.shift_low();
        }
    }

    fn direct_bits(&mut self, value: u32, nbits: usize) {
        for i in (0..nbits).rev() {
            self.range >>= 1;
            if (value >> i) & 1 == 1 {
                self.low += self.range as u64;
            }
            while self.range < 0x100_0000 {
                self.range <<= 8;
                self.shifts += 1;
                self.shift_low();
            }
        }
    }

    fn tree(&mut self, probs: &mut [u16], nbits: usize, value: usize) {
        let mut m = 1usize;
        for i in (0..nbits).rev() {
            let b = ((value >> i) & 1) as u32;
            let mut p = probs[m];
            self.bit(&mut p, b);
            probs[m] = p;
            m = (m << 1) | (b as usize);
        }
    }

    fn finish(mut self) -> Vec<u8> {
        // The decoder reads five bytes up front and one per renormalization,
        // so the payload is exactly `shifts + 5` bytes; cache slack at the
        // end is padded out.
        let want = self.shifts + 5;
        for _ in 0..5 {
            self.shift_low();
        }
        while self.out.len() < want {
            self.shift_low();
        }
        self.out
    }
}

/// Probability models mirroring the decoder, for lc = lp = pb = 0.
struct LzmaEnc {
    is_match: [u16; 12],
    is_rep: [u16; 12],
    is_rep0: [u16; 12],
    is_rep1: [u16; 12],
    is_rep0_long: [u16; 12],
    literal: [u16; 0x300],
    len_choice: u16,
    len_choice2: u16,
    len_low: [u16; 8],
    len_mid: [u16; 8],
    rep_choice: u16,
    rep_low: [u16; 8],
    dist_slot: [[u16; 64]; 4],
    dist_special: [u16; 114],
    dist_align: [u16; 16],
    state: usize,
}

fn rev_tree(rc: &mut REnc, probs: &mut [u16], base: usize, nbits: usize, value: u32) {
    let mut m = 1usize;
    for i in 0..nbits {
        let b = ((value >> i) & 1) as u32;
        let mut p = probs[base + m - 1];
        rc.bit(&mut p, b);
        probs[base + m - 1] = p;
        m = (m << 1) | (b as usize);
    }
}

impl LzmaEnc {
    fn new() -> LzmaEnc {
        LzmaEnc {
            is_match: [0x400; 12],
            is_rep: [0x400; 12],
            is_rep0: [0x400; 12],
            is_rep1: [0x400; 12],
            is_rep0_long: [0x400; 12],
            literal: [0x400; 0x300],
            len_choice: 0x400,
            len_choice2: 0x400,
            len_low: [0x400; 8],
            len_mid: [0x400; 8],
            rep_choice: 0x400,
            rep_low: [0x400; 8],
            dist_slot: [[0x400; 64]; 4],
            dist_special: [0x400; 114],
            dist_align: [0x400; 16],
            state: 0,
        }
    }

    fn state_literal(&mut self) {
        self.state = if self.state < 4 {
            0
        } else if self.state < 10 {
            self.state - 3
        } else {
            self.state - 6
        };
    }

    /// Encode a literal; `match_byte` is the byte one past the most recent
    /// distance back, used only when the previous symbol was not a literal.
    fn literal(&mut self, rc: &mut REnc, byte: u8, match_byte: u8) {
        let mut p = self.is_match[self.state];
        rc.bit(&mut p, 0);
        self.is_match[self.state] = p;
        if self.state < 7 {
            rc.tree(&mut self.literal, 8, byte as usize);
        } else {
            let mut mb = match_byte as usize;
            let mut sym = 1usize;
            let mut in_match = true;
            for i in (0..8).rev() {
                let b = ((byte >> i) & 1) as usize;
                if in_match {
                    let match_bit = (mb >> 7) & 1;
                    mb <<= 1;
                    let idx = ((1 + match_bit) << 8) + sym;
                    let mut p = self.literal[idx];
                    rc.bit(&mut p, b as u32);
                    self.literal[idx] = p;
                    if match_bit != b {
                        in_match = false;
                    }
                } else {
                    let mut p = self.literal[sym];
                    rc.bit(&mut p, b as u32);
                    self.literal[sym] = p;
                }
                sym = (sym << 1) | b;
            }
        }
        self.state_literal();
    }

    fn short_rep(&mut self, rc: &mut REnc) {
        let mut p = self.is_match[self.state];
        rc.bit(&mut p, 1);
        self.is_match[self.state] = p;
        let mut p = self.is_rep[self.state];
        rc.bit(&mut p, 1);
        self.is_rep[self.state] = p;
        let mut p = self.is_rep0[self.state];
        rc.bit(&mut p, 0);
        self.is_rep0[self.state] = p;
        let mut p = self.is_rep0_long[self.state];
        rc.bit(&mut p, 0);
        self.is_rep0_long[self.state] = p;
        self.state = if self.state < 7 { 9 } else { 11 };
    }

    fn match_len(&mut self, rc: &mut REnc, len: usize) {
        if len <= 9 {
            let mut p = self.len_choice;
            rc.bit(&mut p, 0);
            self.len_choice = p;
            rc.tree(&mut self.len_low, 3, len - 2);
        } else {
            let mut p = self.len_choice;
            rc.bit(&mut p, 1);
            self.len_choice = p;
            let mut p = self.len_choice2;
            rc.bit(&mut p, 0);
            self.len_choice2 = p;
            rc.tree(&mut self.len_mid, 3, len - 10);
        }
    }

    /// A fresh match of length 2..=17 whose stored distance value is
    /// `dv` (the real distance minus one).
    fn fresh_match(&mut self, rc: &mut REnc, len: usize, dv: u32) {
        let mut p = self.is_match[self.state];
        rc.bit(&mut p, 1);
        self.is_match[self.state] = p;
        let mut p = self.is_rep[self.state];
        rc.bit(&mut p, 0);
        self.is_rep[self.state] = p;
        self.match_len(rc, len);
        let dist_state = if len < 6 { len - 2 } else { 3 };
        if dv < 4 {
            rc.tree(&mut self.dist_slot[dist_state], 6, dv as usize);
        } else {
            let msb = 31 - dv.leading_zeros() as usize;
            let slot = 2 * msb + (((dv >> (msb - 1)) & 1) as usize);
            let footer_bits = msb - 1;
            let base = (2u32 | ((slot as u32) & 1)) << footer_bits;
            let footer = dv - base;
            rc.tree(&mut self.dist_slot[dist_state], 6, slot);
            if slot < 14 {
                let offset = (base as usize) - slot;
                rev_tree(rc, &mut self.dist_special, offset, footer_bits, footer);
            } else {
                rc.direct_bits(footer >> 4, footer_bits - 4);
                rev_tree(rc, &mut self.dist_align, 1, 4, footer & 0xF);
            }
        }
        self.state = if self.state < 7 { 7 } else { 10 };
    }

    /// A long repeat of the second most recent distance.
    fn long_rep1(&mut self, rc: &mut REnc, len: usize) {
        let mut p = self.is_match[self.state];
        rc.bit(&mut p, 1);
        self.is_match[self.state] = p;
        let mut p = self.is_rep[self.state];
        rc.bit(&mut p, 1);
        self.is_rep[self.state] = p;
        let mut p = self.is_rep0[self.state];
        rc.bit(&mut p, 1);
        self.is_rep0[self.state] = p;
        let mut p = self.is_rep1[self.state];
        rc.bit(&mut p, 0);
        self.is_rep1[self.state] = p;
        let mut p = self.rep_choice;
        rc.bit(&mut p, 0);
        self.rep_choice = p;
        rc.tree(&mut self.rep_low, 3, len - 2);
        self.state = if self.state < 7 { 8 } else { 11 };
    }
}

/// A compressed chunk with everything reset, carrying a zero properties
/// byte, declaring `dsize` plaintext bytes and the payload's exact size.
fn chunk_reset_all(payload: &[u8], dsize: usize) -> Vec<u8> {
    let mut out = vec![0xE0];
    out.extend_from_slice(&(((dsize - 1) & 0xFFFF) as u16).to_be_bytes());
    out.extend_from_slice(&((payload.len() - 1) as u16).to_be_bytes());
    out.push(0x00);
    out.extend_from_slice(payload);
    out
}

/// A compressed chunk that resets only the LZMA state.
fn chunk_reset_state(payload: &[u8], dsize: usize) -> Vec<u8> {
    let mut out = vec![0xA0];
    out.extend_from_slice(&(((dsize - 1) & 0xFFFF) as u16).to_be_bytes());
    out.extend_from_slice(&((payload.len() - 1) as u16).to_be_bytes());
    out.extend_from_slice(payload);
    out
}

#[test]
fn range_coder_bit_round_trip() {
    // Encode a fixed bit pattern against adaptive probabilities and decode
    // it back with the library's range decoder.
    let bits: [u32; 20] = [0, 1, 1, 0, 0, 0, 0, 1, 1, 1, 0, 1, 0, 0, 1, 0, 1, 1, 0, 0];
    let mut rc = REnc::new();
    let mut probs = [0x400u16; 4];
    for (i, &b) in bits.iter().enumerate() {
        let mut p = probs[i % 4];
        rc.bit(&mut p, b);
        probs[i % 4] = p;
    }
    let payload = rc.finish();
    let n = payload.len();
    let mut src = xz_rs::reader::RecordedReader::new(payload);
    let mut dec = xz_rs::range_decoder::RangeDecoder::new();
    dec.initialize(&mut src).unwrap();
    let mut dprobs = [0x400u16; 4];
    for (i, &b) in bits.iter().enumerate() {
        let mut p = dprobs[i % 4];
        let bit = dec.decode_bit(&mut src, &mut p).unwrap();
        dprobs[i % 4] = p;
        assert_eq!(bit, b == 1, "bit {i} differs; code {:08X} range {:08X}", dec.code, dec.range);
    }
    assert_eq!(src.position(), n, "consumption differs from payload length");
}

#[test]
fn empty_payload_crc32_check() {
    let mut file = stream_header_bytes(0x01);
    let index = index_bytes(&[]);
    let backward = (index.len() / 4 - 1) as u32;
    file.extend_from_slice(&index);
    file.extend_from_slice(&footer_bytes(0x01, backward));
    let out = decode_xz(file).unwrap();
    assert!(out.is_empty());
}

#[test]
fn single_literal_uncompressed_chunk() {
    // One stored chunk holding the byte 'A', then the end marker.
    let body = vec![0x01, 0x00, 0x00, 0x41, 0x00];
    let file = one_block_file(0x00, &body, b"A");
    let out = decode_xz(file).unwrap();
    assert_eq!(out, b"A".to_vec());
}

#[test]
fn single_literal_with_crc32_check() {
    let body = vec![0x01, 0x00, 0x00, 0x41, 0x00];
    let file = one_block_file(0x01, &body, b"A");
    let out = decode_xz(file).unwrap();
    assert_eq!(out, b"A".to_vec());
}

#[test]
fn body_crc32_mismatch_rejected() {
    let body = vec![0x01, 0x00, 0x00, 0x41, 0x00];
    let mut file = one_block_file(0x01, &body, b"A");
    // Flip one bit of the stored body check (right after body padding).
    let check_pos = 12 + 12 + body.len() + (4 - (12 + 12 + body.len()) % 4) % 4;
    file[check_pos] ^= 0x01;
    let r = decode_xz(file);
    assert!(matches!(
        r,
        Err(DecodeError::BlockDecodeError(BlockDecodeError::ChecksumMismatch))
    ));
}

#[test]
fn short_rep_two_bytes() {
    // Plaintext "aa": a literal, then a short rep of the byte one back.
    let mut rc = REnc::new();
    let mut enc = LzmaEnc::new();
    enc.literal(&mut rc, b'a', 0);
    enc.short_rep(&mut rc);
    let payload = rc.finish();
    let mut body = chunk_reset_all(&payload, 2);
    body.push(0x00);
    let file = one_block_file(0x00, &body, b"aa");
    let out = decode_xz(file).unwrap();
    assert_eq!(out, b"aa".to_vec());
}

#[test]
fn cross_chunk_dictionary_preserved() {
    // Chunk one holds "ab"; chunk two resets only the state and repeats
    // both bytes through a match whose distance crosses the boundary.
    let mut rc1 = REnc::new();
    let mut enc1 = LzmaEnc::new();
    enc1.literal(&mut rc1, b'a', 0);
    enc1.literal(&mut rc1, b'b', 0);
    let p1 = rc1.finish();
    let mut rc2 = REnc::new();
    let mut enc2 = LzmaEnc::new();
    enc2.fresh_match(&mut rc2, 2, 1);
    let p2 = rc2.finish();
    let mut body = chunk_reset_all(&p1, 2);
    body.extend_from_slice(&chunk_reset_state(&p2, 2));
    body.push(0x00);
    let file = one_block_file(0x00, &body, b"abab");
    let out = decode_xz(file).unwrap();
    assert_eq!(out, b"abab".to_vec());

    // The same plaintext from a single chunk comes out identical.
    let mut rc = REnc::new();
    let mut enc = LzmaEnc::new();
    enc.literal(&mut rc, b'a', 0);
    enc.literal(&mut rc, b'b', 0);
    enc.fresh_match(&mut rc, 2, 1);
    let p = rc.finish();
    let mut body2 = chunk_reset_all(&p, 4);
    body2.push(0x00);
    let file2 = one_block_file(0x00, &body2, b"abab");
    let out2 = decode_xz(file2).unwrap();
    assert_eq!(out, out2);
}

#[test]
fn footer_flags_mismatch_rejected() {
    let mut file = stream_header_bytes(0x01);
    let index = index_bytes(&[]);
    let backward = (index.len() / 4 - 1) as u32;
    file.extend_from_slice(&index);
    file.extend_from_slice(&footer_bytes(0x04, backward));
    let r = decode_xz(file);
    assert!(matches!(
        r,
        Err(DecodeError::StreamDecodeError(StreamDecodeError::HeaderFooterMismatch))
    ));
}

#[test]
fn block_header_crc_bit_flip_rejected() {
    let body = vec![0x01, 0x00, 0x00, 0x41, 0x00];
    let mut file = one_block_file(0x00, &body, b"A");
    // The block header occupies bytes 12..24; its CRC32 is the last four.
    file[20] ^= 0x01;
    let r = decode_xz(file);
    assert!(matches!(
        r,
        Err(DecodeError::BlockDecodeError(BlockDecodeError::InvalidHeader))
    ));
}

#[test]
fn block_header_size_zero_rejected() {
    let mut src = RecordedReader::new(vec![0x00, 0x00, 0x21, 0x01, 0x00]);
    let r = BlockHeader::decode(&mut src);
    assert!(matches!(
        r,
        Err(DecodeError::BlockDecodeError(BlockDecodeError::InvalidHeader))
    ));
}

#[test]
fn block_flags_reserved_bits_rejected() {
    // A header whose flag byte sets a reserved bit but whose CRC32 is
    // otherwise correct.
    let mut header = vec![0x02, 0x04, 0x21, 0x01, 0x00, 0x00, 0x00, 0x00];
    let crc = crc32b(&header);
    header.extend_from_slice(&crc.to_le_bytes());
    let mut src = RecordedReader::new(header);
    let r = BlockHeader::decode(&mut src);
    assert!(matches!(
        r,
        Err(DecodeError::BlockDecodeError(BlockDecodeError::InvalidHeader))
    ));
}

#[test]
fn block_header_nonzero_padding_rejected() {
    let mut header = vec![0x02, 0x00, 0x21, 0x01, 0x00, 0x00, 0x01, 0x00];
    let crc = crc32b(&header);
    header.extend_from_slice(&crc.to_le_bytes());
    let mut src = RecordedReader::new(header);
    let r = BlockHeader::decode(&mut src);
    assert!(matches!(
        r,
        Err(DecodeError::BlockDecodeError(BlockDecodeError::InvalidHeader))
    ));
}

#[test]
fn index_nonzero_padding_rejected() {
    // Indicator, one record (1, 17), then padding with a nonzero byte.
    let mut index = vec![0x00];
    index.extend_from_slice(&vli_bytes(1));
    index.extend_from_slice(&vli_bytes(0x80));
    index.extend_from_slice(&vli_bytes(17));
    while index.len() % 4 != 0 {
        index.push(0x01);
    }
    let crc = crc32b(&index);
    index.extend_from_slice(&crc.to_le_bytes());
    let mut src = RecordedReader::new(index);
    let r = BlockIndex::decode(&mut src);
    assert!(matches!(
        r,
        Err(DecodeError::BlockDecodeError(BlockDecodeError::InvalidIndex))
    ));
}

#[test]
fn index_record_count_must_match_blocks() {
    let body = vec![0x01, 0x00, 0x00, 0x41, 0x00];
    let mut file = stream_header_bytes(0x00);
    file.extend_from_slice(&block_header_bytes(0));
    file.extend_from_slice(&body);
    while file.len() % 4 != 0 {
        file.push(0);
    }
    // An index that claims no blocks at all.
    let index = index_bytes(&[]);
    let backward = (index.len() / 4 - 1) as u32;
    file.extend_from_slice(&index);
    file.extend_from_slice(&footer_bytes(0x00, backward));
    let r = decode_xz(file);
    assert!(matches!(
        r,
        Err(DecodeError::BlockDecodeError(BlockDecodeError::InvalidIndex))
    ));
}

#[test]
fn lzma2_invalid_control_byte_rejected() {
    let body = vec![0x03];
    let file = one_block_file(0x00, &body, b"");
    let r = decode_xz(file);
    assert!(matches!(
        r,
        Err(DecodeError::LzmaError(Lzma2DecodeError::InvalidControlByte))
    ));
}

#[test]
fn lzma2_bad_props_byte_rejected() {
    // A compressed chunk whose properties byte is out of range.
    let mut body = vec![0xE0, 0x00, 0x00, 0x00, 0x04, 225];
    body.extend_from_slice(&[0, 0, 0, 0, 0]);
    body.push(0x00);
    let file = one_block_file(0x00, &body, b"");
    let r = decode_xz(file);
    assert!(matches!(
        r,
        Err(DecodeError::LzmaError(Lzma2DecodeError::InvalidProperties))
    ));
}

#[test]
fn sha256_check_kind_is_rejected_at_block() {
    let body = vec![0x01, 0x00, 0x00, 0x41, 0x00];
    let mut file = stream_header_bytes(0x0A);
    file.extend_from_slice(&block_header_bytes(0));
    file.extend_from_slice(&body);
    while file.len() % 4 != 0 {
        file.push(0);
    }
    file.extend_from_slice(&[0u8; 32]);
    let index = index_bytes(&[(1, 17)]);
    let backward = (index.len() / 4 - 1) as u32;
    file.extend_from_slice(&index);
    file.extend_from_slice(&footer_bytes(0x0A, backward));
    let r = decode_xz(file);
    assert!(matches!(
        r,
        Err(DecodeError::BlockDecodeError(BlockDecodeError::UnsupportedCheck))
    ));
}


#[test]
fn compressed_size_mismatch_rejected() {
    // Declare one byte more of range-coded payload than the decoder uses.
    let mut rc = REnc::new();
    let mut enc = LzmaEnc::new();
    enc.literal(&mut rc, b'a', 0);
    enc.short_rep(&mut rc);
    let payload = rc.finish();
    let mut body = vec![0xE0, 0x00, 0x01];
    body.extend_from_slice(&(payload.len() as u16).to_be_bytes());
    body.push(0x00);
    body.extend_from_slice(&payload);
    body.push(0xFF);
    body.push(0x00);
    let file = one_block_file(0x00, &body, b"aa");
    let r = decode_xz(file);
    assert!(matches!(
        r,
        Err(DecodeError::LzmaError(Lzma2DecodeError::CompressedSizeMismatch))
    ));
}

#[test]
fn matched_literal_after_match() {
    // After a match the next literal decodes against the byte one past the
    // most recent distance; plaintext "ababc".
    let mut rc = REnc::new();
    let mut enc = LzmaEnc::new();
    enc.literal(&mut rc, b'a', 0);
    enc.literal(&mut rc, b'b', 0);
    enc.fresh_match(&mut rc, 2, 1);
    // The most recent distance is two, so the match byte is "abab"[2].
    enc.literal(&mut rc, b'c', b'a');
    let payload = rc.finish();
    let mut body = chunk_reset_all(&payload, 5);
    body.push(0x00);
    let file = one_block_file(0x01, &body, b"ababc");
    let out = decode_xz(file).unwrap();
    assert_eq!(out, b"ababc".to_vec());
}

#[test]
fn overlapping_match_with_mid_length() {
    // Eight literals, then a match of length ten at distance eight: the
    // copy overlaps its own output and replicates the run.
    let plain = b"abcdefghabcdefghab";
    let mut rc = REnc::new();
    let mut enc = LzmaEnc::new();
    for &b in b"abcdefgh" {
        enc.literal(&mut rc, b, 0);
    }
    enc.fresh_match(&mut rc, 10, 7);
    let payload = rc.finish();
    let mut body = chunk_reset_all(&payload, plain.len());
    body.push(0x00);
    let file = one_block_file(0x01, &body, plain);
    let out = decode_xz(file).unwrap();
    assert_eq!(out, plain.to_vec());
}

#[test]
fn long_rep_reuses_second_distance() {
    // Two fresh matches leave their distances in the history; a long
    // repeat then selects the older one again.
    let plain = b"abababab";
    let mut rc = REnc::new();
    let mut enc = LzmaEnc::new();
    enc.literal(&mut rc, b'a', 0);
    enc.literal(&mut rc, b'b', 0);
    enc.fresh_match(&mut rc, 2, 1);
    enc.fresh_match(&mut rc, 2, 3);
    enc.long_rep1(&mut rc, 2);
    let payload = rc.finish();
    let mut body = chunk_reset_all(&payload, plain.len());
    body.push(0x00);
    let file = one_block_file(0x01, &body, plain);
    let out = decode_xz(file).unwrap();
    assert_eq!(out, plain.to_vec());
}

#[test]
fn large_distance_uses_direct_bits() {
    // 130 literals, then a match whose distance needs equiprobable middle
    // bits and the aligned tree.
    let mut plain: Vec<u8> = Vec::new();
    for i in 0..130u32 {
        plain.push(b'a' + (i % 26) as u8);
    }
    let mut rc = REnc::new();
    let mut enc = LzmaEnc::new();
    for i in 0..130usize {
        enc.literal(&mut rc, plain[i], 0);
    }
    enc.fresh_match(&mut rc, 2, 129);
    plain.push(plain[0]);
    plain.push(plain[1]);
    let payload = rc.finish();
    let mut body = chunk_reset_all(&payload, plain.len());
    body.push(0x00);
    let file = one_block_file(0x01, &body, &plain);
    let out = decode_xz(file).unwrap();
    assert_eq!(out, plain);
}

/// A compressed chunk that resets state and properties but keeps the
/// dictionary.
fn chunk_reset_props(payload: &[u8], dsize: usize) -> Vec<u8> {
    let mut out = vec![0xC0];
    out.extend_from_slice(&(((dsize - 1) & 0xFFFF) as u16).to_be_bytes());
    out.extend_from_slice(&((payload.len() - 1) as u16).to_be_bytes());
    out.push(0x00);
    out.extend_from_slice(payload);
    out
}

#[test]
fn stored_chunk_feeds_compressed_chunk() {
    // A stored chunk fills the dictionary with "xy"; a compressed chunk
    // that keeps the dictionary then repeats those bytes through a match.
    let mut rc = REnc::new();
    let mut enc = LzmaEnc::new();
    enc.fresh_match(&mut rc, 2, 1);
    let payload = rc.finish();
    let mut body = vec![0x01, 0x00, 0x01, b'x', b'y'];
    body.extend_from_slice(&chunk_reset_props(&payload, 2));
    body.push(0x00);
    let file = one_block_file(0x01, &body, b"xyxy");
    let out = decode_xz(file).unwrap();
    assert_eq!(out, b"xyxy".to_vec());
}

#[test]
fn two_blocks_concatenate() {
    let body = vec![0x01, 0x00, 0x00, 0x41, 0x00];
    let mut file = stream_header_bytes(0x01);
    for _ in 0..2 {
        file.extend_from_slice(&block_header_bytes(0));
        file.extend_from_slice(&body);
        while file.len() % 4 != 0 {
            file.push(0);
        }
        file.extend_from_slice(&crc32b(b"A").to_le_bytes());
    }
    let index = index_bytes(&[(1, 17), (1, 17)]);
    let backward = (index.len() / 4 - 1) as u32;
    file.extend_from_slice(&index);
    file.extend_from_slice(&footer_bytes(0x01, backward));
    let out = decode_xz(file).unwrap();
    assert_eq!(out, b"AA".to_vec());
}

#[test]
fn distance_beyond_declared_dict_size_rejected() {
    // With the smallest dictionary (property byte 0, 4096 bytes), a match
    // distance inside the decoded history but beyond 4096 is an error.
    let n: usize = 4200;
    let mut rc = REnc::new();
    let mut enc = LzmaEnc::new();
    for i in 0..n {
        enc.literal(&mut rc, b'a' + ((i * 7) % 26) as u8, 0);
    }
    enc.fresh_match(&mut rc, 2, 4199);
    let payload = rc.finish();
    let mut body = chunk_reset_all(&payload, n + 2);
    body.push(0x00);
    let file = one_block_file(0x00, &body, b"");
    let r = decode_xz(file);
    assert!(matches!(
        r,
        Err(DecodeError::LzmaError(Lzma2DecodeError::InvalidDistance))
    ));
}

#[test]
fn footer_backward_size_mismatch_rejected() {
    let mut file = stream_header_bytes(0x01);
    let index = index_bytes(&[]);
    let backward = (index.len() / 4 - 1) as u32;
    file.extend_from_slice(&index);
    // Declare one unit more than the index really occupies.
    file.extend_from_slice(&footer_bytes(0x01, backward + 1));
    let r = decode_xz(file);
    assert!(matches!(
        r,
        Err(DecodeError::StreamDecodeError(StreamDecodeError::InvalidFooter))
    ));
}
