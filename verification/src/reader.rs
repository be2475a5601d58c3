//! An in-memory byte source that records what it hands out.
//!
//! The recorded span backs the CRC32 fields of the block header and block
//! index, which cover every header byte that precedes them.

use vstd::prelude::*;

use crate::crc::crc32_of;
use crate::crc::crc32_range;
use crate::error::DecodeError;

verus! {

/// The value of four little-endian bytes.
pub open spec fn le32_of(s: Seq<u8>) -> nat
    recommends
        s.len() >= 4,
{
    s[0] as nat + 0x100 * s[1] as nat + 0x1_0000 * s[2] as nat + 0x100_0000 * s[3] as nat
}

/// The value of eight little-endian bytes.
pub open spec fn le64_of(s: Seq<u8>) -> nat
    recommends
        s.len() >= 8,
{
    le32_of(s) + 0x1_0000_0000 * le32_of(s.skip(4))
}

/// The four little-endian bytes of a 32-bit value.
pub open spec fn le32_bytes(v: u32) -> Seq<u8> {
    seq![
        (v & 0xFF) as u8,
        ((v >> 8) & 0xFF) as u8,
        ((v >> 16) & 0xFF) as u8,
        ((v >> 24) & 0xFF) as u8,
    ]
}

/// Reading the four little-endian bytes of `v` gives `v` back.
pub proof fn lemma_le32_bytes_value(v: u32)
    ensures
        le32_of(le32_bytes(v)) == v as nat,
{
    assert((v & 0xFF) < 256 && ((v >> 8) & 0xFF) < 256 && ((v >> 16) & 0xFF) < 256 && ((v >> 24)
        & 0xFF) < 256 && (v & 0xFF) + 0x100 * ((v >> 8) & 0xFF) + 0x1_0000 * ((v >> 16) & 0xFF)
        + 0x100_0000 * ((v >> 24) & 0xFF) == v) by (bit_vector);
    assert(le32_bytes(v)[0] == (v & 0xFF) as u8);
    assert(le32_bytes(v)[1] == ((v >> 8) & 0xFF) as u8);
    assert(le32_bytes(v)[2] == ((v >> 16) & 0xFF) as u8);
    assert(le32_bytes(v)[3] == ((v >> 24) & 0xFF) as u8);
}

/// The four little-endian bytes of a 32-bit value, as a vector.
pub fn le32_to_bytes(v: u32) -> (r: Vec<u8>)
    ensures
        r@ == le32_bytes(v),
{
    proof {
        assert(v & 0xFF < 256 && (v >> 8) & 0xFF < 256 && (v >> 16) & 0xFF < 256 && (v >> 24) & 0xFF
            < 256) by (bit_vector);
    }
    let mut r: Vec<u8> = Vec::new();
    r.push((v & 0xFF) as u8);
    r.push(((v >> 8) & 0xFF) as u8);
    r.push(((v >> 16) & 0xFF) as u8);
    r.push(((v >> 24) & 0xFF) as u8);
    proof {
        assert(r@ =~= le32_bytes(v));
    }
    r
}

/// The value of two big-endian bytes.
pub open spec fn be16_of(s: Seq<u8>) -> nat
    recommends
        s.len() >= 2,
{
    0x100 * s[0] as nat + s[1] as nat
}

/// The value of four big-endian bytes.
pub open spec fn be32_of(s: Seq<u8>) -> nat
    recommends
        s.len() >= 4,
{
    0x100_0000 * s[0] as nat + 0x1_0000 * s[1] as nat + 0x100 * s[2] as nat + s[3] as nat
}

/// A byte source over a fixed buffer, with a cursor and a recording mark.
///
/// Bytes between the mark and the cursor form the current recording; block
/// header and index parsing checksum exactly that span.
pub struct RecordedReader {
    data: Vec<u8>,
    start: usize,
    pos: usize,
}

impl RecordedReader {
    /// The whole underlying buffer.
    pub closed spec fn src(self) -> Seq<u8> {
        self.data@
    }

    /// The cursor: index of the next byte to be read.
    pub closed spec fn pos(self) -> int {
        self.pos as int
    }

    /// Where the current recording began.
    pub closed spec fn mark(self) -> int {
        self.start as int
    }

    /// The bytes handed out since the recording mark.
    pub open spec fn recording(self) -> Seq<u8> {
        self.src().subrange(self.mark(), self.pos())
    }

    pub open spec fn wf(self) -> bool {
        0 <= self.mark() <= self.pos() <= self.src().len()
    }

    pub fn new(data: Vec<u8>) -> (r: Self)
        ensures
            r.wf(),
            r.src() == data@,
            r.pos() == 0,
            r.mark() == 0,
    {
        RecordedReader { data, start: 0, pos: 0 }
    }

    /// How many bytes are left before the end of the buffer.
    pub fn remaining(&self) -> (r: usize)
        requires
            self.wf(),
        ensures
            r == self.src().len() - self.pos(),
    {
        self.data.len() - self.pos
    }

    /// The cursor as a count of bytes consumed from the start of the buffer.
    pub fn position(&self) -> (r: usize)
        ensures
            r == self.pos(),
    {
        self.pos
    }

    /// Length of the current recording.
    pub fn len(&self) -> (r: usize)
        requires
            self.wf(),
        ensures
            r == self.recording().len(),
    {
        self.pos - self.start
    }

    /// Whether the current recording is empty.
    pub fn is_empty(&self) -> (r: bool)
        requires
            self.wf(),
        ensures
            r == (self.recording().len() == 0),
    {
        self.pos == self.start
    }

    /// Restart the recording at the cursor.
    pub fn reset_recording(&mut self)
        requires
            old(self).wf(),
        ensures
            final(self).wf(),
            final(self).src() == old(self).src(),
            final(self).pos() == old(self).pos(),
            final(self).mark() == old(self).pos(),
    {
        self.start = self.pos;
    }

    /// The next byte, without consuming it.
    pub fn peek_u8(&self) -> (r: Option<u8>)
        requires
            self.wf(),
        ensures
            match r {
                Some(b) => self.pos() < self.src().len() && b == self.src()[self.pos()],
                None => self.pos() == self.src().len(),
            },
    {
        if self.pos < self.data.len() {
            Some(self.data[self.pos])
        } else {
            None
        }
    }

    /// Read one byte.
    pub fn read_u8(&mut self) -> (r: Result<u8, DecodeError>)
        requires
            old(self).wf(),
        ensures
            final(self).wf(),
            final(self).src() == old(self).src(),
            final(self).mark() == old(self).mark(),
            match r {
                Ok(b) => {
                    &&& old(self).pos() < old(self).src().len()
                    &&& b == old(self).src()[old(self).pos()]
                    &&& final(self).pos() == old(self).pos() + 1
                },
                Err(e) => {
                    &&& e == DecodeError::EndOfInput
                    &&& old(self).pos() == old(self).src().len()
                    &&& final(self).pos() == old(self).pos()
                },
            },
    {
        if self.pos < self.data.len() {
            let b = self.data[self.pos];
            self.pos = self.pos + 1;
            Ok(b)
        } else {
            Err(DecodeError::EndOfInput)
        }
    }

    /// Read `n` bytes into a fresh vector.
    pub fn read_bytes(&mut self, n: usize) -> (r: Result<Vec<u8>, DecodeError>)
        requires
            old(self).wf(),
        ensures
            final(self).wf(),
            final(self).src() == old(self).src(),
            final(self).mark() == old(self).mark(),
            match r {
                Ok(v) => {
                    &&& old(self).pos() + n <= old(self).src().len()
                    &&& v@ == old(self).src().subrange(old(self).pos(), old(self).pos() + n)
                    &&& final(self).pos() == old(self).pos() + n
                },
                Err(e) => {
                    &&& e == DecodeError::EndOfInput
                    &&& old(self).pos() + n > old(self).src().len()
                    &&& final(self).pos() == old(self).pos()
                },
            },
    {
        if n > self.data.len() - self.pos {
            return Err(DecodeError::EndOfInput);
        }
        let mut v: Vec<u8> = Vec::new();
        let mut i: usize = 0;
        while i < n
            invariant
                *self == *old(self),
                self.wf(),
                i <= n,
                self.pos + n <= self.data.len(),
                v@ == self.data@.subrange(self.pos as int, self.pos + i),
            decreases n - i,
        {
            v.push(self.data[self.pos + i]);
            i = i + 1;
            proof {
                assert(v@ =~= self.data@.subrange(self.pos as int, self.pos + i));
            }
        }
        self.pos = self.pos + n;
        Ok(v)
    }

    /// The CRC32 of the current recording.
    pub fn crc32(&self) -> (r: u32)
        requires
            self.wf(),
        ensures
            r == crc32_of(self.recording()),
    {
        crc32_range(&self.data, self.start, self.pos)
    }

    /// Read two big-endian bytes as one integer.
    pub fn read_be_u16(&mut self) -> (r: Result<u16, DecodeError>)
        requires
            old(self).wf(),
        ensures
            final(self).wf(),
            final(self).src() == old(self).src(),
            final(self).mark() == old(self).mark(),
            match r {
                Ok(v) => {
                    &&& old(self).pos() + 2 <= old(self).src().len()
                    &&& v as nat == be16_of(old(self).src().skip(old(self).pos()))
                    &&& final(self).pos() == old(self).pos() + 2
                },
                Err(e) => {
                    &&& e == DecodeError::EndOfInput
                    &&& old(self).pos() + 2 > old(self).src().len()
                    &&& final(self).pos() == old(self).pos()
                },
            },
    {
        if 2 > self.data.len() - self.pos {
            return Err(DecodeError::EndOfInput);
        }
        let b0 = self.data[self.pos];
        let b1 = self.data[self.pos + 1];
        self.pos = self.pos + 2;
        Ok((b0 as u16) * 0x100 + (b1 as u16))
    }

    /// Read four big-endian bytes as one integer.
    pub fn read_be_u32(&mut self) -> (r: Result<u32, DecodeError>)
        requires
            old(self).wf(),
        ensures
            final(self).wf(),
            final(self).src() == old(self).src(),
            final(self).mark() == old(self).mark(),
            match r {
                Ok(v) => {
                    &&& old(self).pos() + 4 <= old(self).src().len()
                    &&& v as nat == be32_of(old(self).src().skip(old(self).pos()))
                    &&& final(self).pos() == old(self).pos() + 4
                },
                Err(e) => {
                    &&& e == DecodeError::EndOfInput
                    &&& old(self).pos() + 4 > old(self).src().len()
                    &&& final(self).pos() == old(self).pos()
                },
            },
    {
        if 4 > self.data.len() - self.pos {
            return Err(DecodeError::EndOfInput);
        }
        let b0 = self.data[self.pos];
        let b1 = self.data[self.pos + 1];
        let b2 = self.data[self.pos + 2];
        let b3 = self.data[self.pos + 3];
        self.pos = self.pos + 4;
        Ok((b0 as u32) * 0x100_0000 + (b1 as u32) * 0x1_0000 + (b2 as u32) * 0x100 + (b3 as u32))
    }

    /// Read four little-endian bytes as one integer.
    pub fn read_le_u32(&mut self) -> (r: Result<u32, DecodeError>)
        requires
            old(self).wf(),
        ensures
            final(self).wf(),
            final(self).src() == old(self).src(),
            final(self).mark() == old(self).mark(),
            match r {
                Ok(v) => {
                    &&& old(self).pos() + 4 <= old(self).src().len()
                    &&& v as nat == le32_of(old(self).src().skip(old(self).pos()))
                    &&& final(self).pos() == old(self).pos() + 4
                },
                Err(e) => {
                    &&& e == DecodeError::EndOfInput
                    &&& old(self).pos() + 4 > old(self).src().len()
                    &&& final(self).pos() == old(self).pos()
                },
            },
    {
        if 4 > self.data.len() - self.pos {
            return Err(DecodeError::EndOfInput);
        }
        let b0 = self.data[self.pos];
        let b1 = self.data[self.pos + 1];
        let b2 = self.data[self.pos + 2];
        let b3 = self.data[self.pos + 3];
        self.pos = self.pos + 4;
        Ok((b0 as u32) + (b1 as u32) * 0x100 + (b2 as u32) * 0x1_0000 + (b3 as u32) * 0x100_0000)
    }

    /// Read eight little-endian bytes as one integer.
    pub fn read_le_u64(&mut self) -> (r: Result<u64, DecodeError>)
        requires
            old(self).wf(),
        ensures
            final(self).wf(),
            final(self).src() == old(self).src(),
            final(self).mark() == old(self).mark(),
            match r {
                Ok(v) => {
                    &&& old(self).pos() + 8 <= old(self).src().len()
                    &&& v as nat == le64_of(old(self).src().skip(old(self).pos()))
                    &&& final(self).pos() == old(self).pos() + 8
                },
                Err(e) => {
                    &&& e == DecodeError::EndOfInput
                    &&& old(self).pos() + 8 > old(self).src().len()
                    &&& final(self).pos() == old(self).pos()
                },
            },
    {
        if 8 > self.data.len() - self.pos {
            return Err(DecodeError::EndOfInput);
        }
        let lo = match self.read_le_u32() {
            Ok(v) => v,
            Err(e) => {
                return Err(e);
            },
        };
        let hi = match self.read_le_u32() {
            Ok(v) => v,
            Err(e) => {
                return Err(e);
            },
        };
        let r = (lo as u64) + (hi as u64) * 0x1_0000_0000;
        proof {
            let s = old(self).src().skip(old(self).pos());
            assert(s.skip(4) =~= old(self).src().skip(old(self).pos() + 4));
        }
        Ok(r)
    }
}

} // verus!
