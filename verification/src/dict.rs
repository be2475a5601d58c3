//! The sliding LZ77 dictionary: the plaintext decoded so far.
//!
//! The buffer holds every byte decoded for the current block, so flushing
//! to the output is the caller's concern once a block ends. A dictionary
//! reset moves the `base` mark forward: repeats may only reach back to it.

use vstd::prelude::*;

use crate::error::DecodeError;
use crate::error::Lzma2DecodeError;

verus! {

/// The bytes after extending `s` by `n` bytes copied one at a time from
/// distance `dist` behind the end; overlapping runs replicate.
pub open spec fn repeat_ext(s: Seq<u8>, dist: int, n: int) -> Seq<u8>
    decreases n,
{
    if n <= 0 {
        s
    } else {
        let t = repeat_ext(s, dist, n - 1);
        t.push(t[t.len() - dist])
    }
}

/// The decoded plaintext of the current block, with the reset mark and
/// the declared dictionary size bounding every match distance.
pub struct Dict {
    buf: Vec<u8>,
    base: usize,
    max_size: u32,
}

impl Dict {
    /// All plaintext decoded for this block.
    pub closed spec fn view(self) -> Seq<u8> {
        self.buf@
    }

    /// Where the current dictionary window begins: a reset moves it to the
    /// end, so earlier bytes cannot be repeated from.
    pub closed spec fn base(self) -> int {
        self.base as int
    }

    /// The dictionary size the filter declared: no match may reach
    /// further back than this.
    pub closed spec fn max_spec(self) -> u32 {
        self.max_size
    }

    pub open spec fn wf(self) -> bool {
        0 <= self.base() <= self.view().len()
    }

    /// How many bytes a repeat may reach back over.
    pub open spec fn available_spec(self) -> int {
        self.view().len() - self.base()
    }

    pub fn new(dict_size: u32) -> (r: Self)
        ensures
            r.wf(),
            r.view() == Seq::<u8>::empty(),
            r.base() == 0,
            r.max_spec() == dict_size,
    {
        Dict { buf: Vec::new(), base: 0, max_size: dict_size }
    }

    /// Total bytes decoded for this block.
    pub fn len(&self) -> (r: usize)
        ensures
            r == self.view().len(),
    {
        self.buf.len()
    }

    pub fn is_empty(&self) -> (r: bool)
        ensures
            r == (self.view().len() == 0),
    {
        self.buf.len() == 0
    }

    /// Bytes reachable by a repeat.
    pub fn available(&self) -> (r: usize)
        requires
            self.wf(),
        ensures
            r == self.available_spec(),
    {
        self.buf.len() - self.base
    }

    /// Forget the history: repeats may no longer reach past this point.
    pub fn reset(&mut self)
        requires
            old(self).wf(),
        ensures
            final(self).wf(),
            final(self).view() == old(self).view(),
            final(self).base() == old(self).view().len(),
            final(self).max_spec() == old(self).max_spec(),
    {
        self.base = self.buf.len();
    }

    /// The last byte of the window, if the window holds any.
    pub fn last(&self) -> (r: Option<u8>)
        requires
            self.wf(),
        ensures
            match r {
                Some(b) => self.available_spec() > 0 && b == self.view()[self.view().len() - 1],
                None => self.available_spec() == 0,
            },
    {
        if self.buf.len() > self.base {
            Some(self.buf[self.buf.len() - 1])
        } else {
            None
        }
    }

    /// The byte `n` positions back from the end (`n == 1` is the last byte).
    pub fn last_n(&self, n: usize) -> (r: Result<u8, DecodeError>)
        requires
            self.wf(),
        ensures
            match r {
                Ok(b) => 1 <= n <= self.available_spec() && b == self.view()[self.view().len() - n],
                Err(e) => e == DecodeError::LzmaError(Lzma2DecodeError::InvalidDistance) && !(1 <= n
                    <= self.available_spec()),
            },
    {
        if n >= 1 && n <= self.buf.len() - self.base {
            Ok(self.buf[self.buf.len() - n])
        } else {
            Err(DecodeError::LzmaError(Lzma2DecodeError::InvalidDistance))
        }
    }

    /// The byte `dist0 + 1` positions back from the end: what a matched
    /// literal compares against.
    pub fn match_byte(&self, dist0: u32) -> (r: Result<u8, DecodeError>)
        requires
            self.wf(),
        ensures
            match r {
                Ok(b) => (dist0 as int) < self.available_spec() && dist0 < self.max_spec() && b
                    == self.view()[self.view().len() - 1 - dist0],
                Err(e) => e == DecodeError::LzmaError(Lzma2DecodeError::InvalidDistance) && ((dist0
                    as int) >= self.available_spec() || dist0 >= self.max_spec()),
            },
    {
        if (dist0 as usize) < self.buf.len() - self.base && dist0 < self.max_size {
            Ok(self.buf[self.buf.len() - 1 - (dist0 as usize)])
        } else {
            Err(DecodeError::LzmaError(Lzma2DecodeError::InvalidDistance))
        }
    }

    /// Append one decoded byte.
    pub fn push(&mut self, byte: u8)
        requires
            old(self).wf(),
        ensures
            final(self).wf(),
            final(self).view() == old(self).view().push(byte),
            final(self).base() == old(self).base(),
            final(self).max_spec() == old(self).max_spec(),
    {
        self.buf.push(byte);
    }

    /// Append a run of bytes, as an uncompressed chunk does.
    pub fn extend(&mut self, bytes: &Vec<u8>)
        requires
            old(self).wf(),
        ensures
            final(self).wf(),
            final(self).view() == old(self).view() + bytes@,
            final(self).base() == old(self).base(),
            final(self).max_spec() == old(self).max_spec(),
    {
        let mut i: usize = 0;
        while i < bytes.len()
            invariant
                self.wf(),
                self.base() == old(self).base(),
                self.max_spec() == old(self).max_spec(),
                i <= bytes.len(),
                self.view() == old(self).view() + bytes@.take(i as int),
            decreases bytes.len() - i,
        {
            self.buf.push(bytes[i]);
            i = i + 1;
            proof {
                assert(old(self).view() + bytes@.take(i as int) =~= (old(self).view()
                    + bytes@.take(i - 1)).push(bytes@[i - 1]));
            }
        }
        proof {
            assert(bytes@.take(bytes@.len() as int) =~= bytes@);
        }
    }

    /// Copy `len` bytes from `dist0 + 1` positions back, one byte at a time
    /// so that overlapping runs replicate; the distance must stay inside
    /// the window.
    pub fn repeat(&mut self, len: usize, dist0: u32) -> (r: Result<(), DecodeError>)
        requires
            old(self).wf(),
        ensures
            final(self).wf(),
            final(self).base() == old(self).base(),
            final(self).max_spec() == old(self).max_spec(),
            match r {
                Ok(()) => {
                    &&& (dist0 as int) < old(self).available_spec()
                    &&& dist0 < old(self).max_spec()
                    &&& final(self).view() == repeat_ext(
                        old(self).view(),
                        dist0 as int + 1,
                        len as int,
                    )
                },
                Err(e) => {
                    &&& e == DecodeError::LzmaError(Lzma2DecodeError::InvalidDistance)
                    &&& ((dist0 as int) >= old(self).available_spec() || dist0 >= old(
                        self,
                    ).max_spec())
                    &&& final(self).view() == old(self).view()
                },
            },
    {
        if (dist0 as usize) >= self.buf.len() - self.base || dist0 >= self.max_size {
            return Err(DecodeError::LzmaError(Lzma2DecodeError::InvalidDistance));
        }
        let mut i: usize = 0;
        while i < len
            invariant
                self.wf(),
                self.base() == old(self).base(),
                self.max_spec() == old(self).max_spec(),
                i <= len,
                (dist0 as int) < self.available_spec(),
                self.view() == repeat_ext(old(self).view(), dist0 as int + 1, i as int),
            decreases len - i,
        {
            let b = self.buf[self.buf.len() - 1 - (dist0 as usize)];
            self.buf.push(b);
            i = i + 1;
        }
        Ok(())
    }

    /// Append the whole decoded block to `out`.
    pub fn extend_into(&self, out: &mut Vec<u8>)
        ensures
            final(out)@ == old(out)@ + self.view(),
    {
        let mut i: usize = 0;
        while i < self.buf.len()
            invariant
                i <= self.buf.len(),
                out@ == old(out)@ + self.view().take(i as int),
            decreases self.buf.len() - i,
        {
            out.push(self.buf[i]);
            i = i + 1;
            proof {
                assert(old(out)@ + self.view().take(i as int) =~= (old(out)@ + self.view().take(
                    i - 1,
                )).push(self.view()[i - 1]));
            }
        }
        proof {
            assert(self.view().take(self.view().len() as int) =~= self.view());
        }
    }
}

} // verus!
