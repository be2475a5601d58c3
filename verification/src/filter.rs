//! The filter records of a block header.
//!
//! Only the LZMA2 filter (id 0x21) is supported; its one property byte
//! encodes the dictionary size.

use vstd::prelude::*;

use crate::error::BlockDecodeError;
use crate::error::DecodeError;
use crate::reader::RecordedReader;
use crate::vli::fail_error;
use crate::vli::vli_parse;
use crate::vli::ParseFail;
use crate::vli::VarLengthInt;
use crate::vli::VliOutcome;

verus! {

/// The dictionary size a property byte encodes: `b` in `[0, 40)` maps to
/// `(2 | (b & 1)) << (b / 2 + 11)`, 40 to the full 32-bit range, and
/// anything larger to nothing (shown here as zero).
pub open spec fn dict_size_of(bits: u8) -> u32 {
    if bits > 40 {
        0
    } else if bits == 40 {
        0xFFFF_FFFFu32
    } else {
        (2u32 | ((bits as u32) & 1)) << ((bits as u32) / 2 + 11)
    }
}

/// The smallest property byte at or after `k` that encodes `ds`.
pub open spec fn first_dict_bits(ds: u32, k: int) -> Option<u8>
    decreases 41 - k,
{
    if k > 40 || k < 0 {
        Option::None
    } else if dict_size_of(k as u8) == ds {
        Option::Some(k as u8)
    } else {
        first_dict_bits(ds, k + 1)
    }
}

/// A filter of the block filter chain.
#[derive(Debug, Clone, Copy, PartialEq, Eq, Structural)]
pub enum Filter {
    Lzma2 { dict_size: u32 },
}

/// Parse one filter record at the front of `s`: a variable-length id, a
/// variable-length property length, and the property bytes; only the
/// LZMA2 filter with a valid dictionary-size byte is accepted.
pub open spec fn parse_filter(s: Seq<u8>) -> Option<(Filter, int)> {
    match vli_parse(s) {
        VliOutcome::Value { value: id, len: l1 } => {
            if id > 0x4000_0000_0000_0000 {
                Option::None
            } else {
                match vli_parse(s.skip(l1)) {
                    VliOutcome::Value { value: psize, len: l2 } => {
                        if psize > 1024 {
                            Option::None
                        } else if l1 + l2 + psize > s.len() {
                            Option::None
                        } else if id == 0x21 && psize == 1 && s[l1 + l2] <= 40 {
                            Option::Some(
                                (
                                    Filter::Lzma2 { dict_size: dict_size_of(s[l1 + l2]) },
                                    l1 + l2 + psize,
                                ),
                            )
                        } else {
                            Option::None
                        }
                    },
                    _ => Option::None,
                }
            }
        },
        _ => Option::None,
    }
}

/// Why parsing one filter record fails; meaningful when `parse_filter`
/// yields nothing.
pub open spec fn filter_fail(t: Seq<u8>) -> ParseFail {
    match vli_parse(t) {
        VliOutcome::Overflow => ParseFail::VliBad,
        VliOutcome::Truncated => ParseFail::Truncated,
        VliOutcome::Value { value: id, len: l1 } => {
            if id > 0x4000_0000_0000_0000 {
                ParseFail::Malformed
            } else {
                match vli_parse(t.skip(l1)) {
                    VliOutcome::Overflow => ParseFail::VliBad,
                    VliOutcome::Truncated => ParseFail::Truncated,
                    VliOutcome::Value { value: psize, len: l2 } => {
                        if psize > 1024 {
                            ParseFail::Malformed
                        } else if l1 + l2 + psize > t.len() {
                            ParseFail::Truncated
                        } else {
                            ParseFail::Malformed
                        }
                    },
                }
            }
        },
    }
}

impl Filter {
    /// The dictionary size this filter was configured with.
    pub open spec fn dict_size_spec(self) -> u32 {
        match self {
            Filter::Lzma2 { dict_size } => dict_size,
        }
    }

    /// The dictionary size a property byte encodes.
    pub fn lzma2_dict_size(bits: u8) -> (r: u32)
        ensures
            r == dict_size_of(bits),
    {
        if bits > 40 {
            0
        } else if bits == 40 {
            0xFFFF_FFFF
        } else {
            (2u32 | ((bits as u32) & 1)) << ((bits as u32) / 2 + 11)
        }
    }

    /// Build a filter from an id and its property bytes; only LZMA2 with
    /// one valid dictionary-size byte is accepted.
    pub fn try_new(id: u64, properties: &Vec<u8>) -> (r: Result<Filter, DecodeError>)
        ensures
            match r {
                Ok(f) => {
                    &&& id == 0x21
                    &&& properties@.len() == 1
                    &&& properties@[0] <= 40
                    &&& f == (Filter::Lzma2 { dict_size: dict_size_of(properties@[0]) })
                },
                Err(e) => {
                    &&& e == DecodeError::BlockDecodeError(BlockDecodeError::InvalidHeader)
                    &&& !(id == 0x21 && properties@.len() == 1 && properties@[0] <= 40)
                },
            },
    {
        if id == 0x21 && properties.len() == 1 {
            let bits = properties[0];
            if bits > 40 {
                return Err(DecodeError::BlockDecodeError(BlockDecodeError::InvalidHeader));
            }
            Ok(Filter::Lzma2 { dict_size: Self::lzma2_dict_size(bits) })
        } else {
            Err(DecodeError::BlockDecodeError(BlockDecodeError::InvalidHeader))
        }
    }

    /// The filter id.
    pub fn id(&self) -> (r: u64)
        ensures
            r == 0x21,
    {
        match self {
            Filter::Lzma2 { .. } => 0x21,
        }
    }

    /// The property bytes: the smallest byte that encodes this filter's
    /// dictionary size, or a zero byte if none does.
    pub fn properties(&self) -> (r: Vec<u8>)
        ensures
            match first_dict_bits(self.dict_size_spec(), 0) {
                Option::Some(b) => r@ == seq![b],
                Option::None => r@ == seq![0u8],
            },
    {
        let ds = match self {
            Filter::Lzma2 { dict_size } => *dict_size,
        };
        let mut bits: u8 = 0;
        while bits <= 40
            invariant
                bits <= 41,
                ds == self.dict_size_spec(),
                first_dict_bits(ds, 0) == first_dict_bits(ds, bits as int),
            decreases 41 - bits,
        {
            if Self::lzma2_dict_size(bits) == ds {
                let mut r: Vec<u8> = Vec::new();
                r.push(bits);
                proof {
                    assert(r@ =~= seq![bits]);
                }
                return r;
            }
            bits = bits + 1;
        }
        let mut r: Vec<u8> = Vec::new();
        r.push(0);
        proof {
            assert(r@ =~= seq![0u8]);
        }
        r
    }

    /// The whole filter record: id, property length, property bytes.
    pub fn encoding(&self) -> (r: Vec<u8>)
        ensures
            match first_dict_bits(self.dict_size_spec(), 0) {
                Option::Some(b) => r@ == seq![0x21u8, 1u8, b],
                Option::None => r@ == seq![0x21u8, 1u8, 0u8],
            },
    {
        let props = self.properties();
        let mut r: Vec<u8> = Vec::new();
        r.push(0x21);
        r.push(1);
        r.push(props[0]);
        proof {
            match first_dict_bits(self.dict_size_spec(), 0) {
                Option::Some(b) => {
                    assert(r@ =~= seq![0x21u8, 1u8, b]);
                },
                Option::None => {
                    assert(r@ =~= seq![0x21u8, 1u8, 0u8]);
                },
            }
        }
        r
    }

    /// Read one filter record.
    pub fn decode(src: &mut RecordedReader) -> (r: Result<Filter, DecodeError>)
        requires
            old(src).wf(),
        ensures
            final(src).wf(),
            final(src).src() == old(src).src(),
            final(src).mark() == old(src).mark(),
            final(src).pos() >= old(src).pos(),
            match r {
                Ok(f) => match parse_filter(old(src).src().skip(old(src).pos())) {
                    Option::Some((pf, n)) => f == pf && final(src).pos() == old(src).pos() + n,
                    Option::None => false,
                },
                Err(e) => {
                    &&& parse_filter(old(src).src().skip(old(src).pos())) is None
                    &&& filter_fail(old(src).src().skip(old(src).pos())) != ParseFail::Fine
                    &&& e == fail_error(
                        filter_fail(old(src).src().skip(old(src).pos())),
                        DecodeError::BlockDecodeError(BlockDecodeError::InvalidHeader),
                    )
                },
            },
    {
        let ghost s = old(src).src().skip(old(src).pos());
        let id = match VarLengthInt::decode(src) {
            Ok(v) => v,
            Err(e) => {
                return Err(e);
            },
        };
        if id.0 > 0x4000_0000_0000_0000 {
            return Err(DecodeError::BlockDecodeError(BlockDecodeError::InvalidHeader));
        }
        proof {
            lemma_skip_skip(old(src).src(), old(src).pos(), src.pos() - old(src).pos());
        }
        let psize = match VarLengthInt::decode(src) {
            Ok(v) => v,
            Err(e) => {
                return Err(e);
            },
        };
        if psize.0 > 1024 {
            return Err(DecodeError::BlockDecodeError(BlockDecodeError::InvalidHeader));
        }
        let ghost pos2 = src.pos();
        let properties = match src.read_bytes(psize.0 as usize) {
            Ok(v) => v,
            Err(e) => {
                return Err(e);
            },
        };
        proof {
            if properties@.len() > 0 {
                assert(properties@[0] == old(src).src()[pos2]);
                assert(s[pos2 - old(src).pos()] == old(src).src()[pos2]);
            }
        }
        Self::try_new(id.0, &properties)
    }
}

/// Skipping twice is skipping the sum.
pub proof fn lemma_skip_skip(t: Seq<u8>, a: int, b: int)
    requires
        0 <= a,
        0 <= b,
        a + b <= t.len(),
    ensures
        t.skip(a).skip(b) =~= t.skip(a + b),
{
}

/// Every dictionary size that some byte encodes is found again by the
/// search from zero, and decodes to the same size.
pub proof fn lemma_dict_size_round_trip(bits: u8)
    requires
        bits <= 40,
    ensures
        match first_dict_bits(dict_size_of(bits), 0) {
            Option::Some(b2) => b2 <= 40 && dict_size_of(b2) == dict_size_of(bits),
            Option::None => false,
        },
{
    lemma_first_dict_bits_hits(dict_size_of(bits), 0, bits);
}

/// A filter whose dictionary size some byte encodes survives the trip
/// through its record bytes: parsing the encoding yields the same filter.
pub proof fn lemma_filter_encoding_round_trip(f: Filter, bits: u8)
    requires
        bits <= 40,
        dict_size_of(bits) == f.dict_size_spec(),
    ensures
        match first_dict_bits(f.dict_size_spec(), 0) {
            Option::Some(b) => parse_filter(seq![0x21u8, 1u8, b]) == Option::Some((f, 3int)),
            Option::None => false,
        },
{
    lemma_first_dict_bits_hits(f.dict_size_spec(), 0, bits);
    match first_dict_bits(f.dict_size_spec(), 0) {
        Option::Some(b) => {
            let s = seq![0x21u8, 1u8, b];
            assert(0x21u8 & 0x80 == 0 && 1u8 & 0x80 == 0) by (bit_vector);
            assert(vli_parse(s) == (VliOutcome::Value { value: 0x21, len: 1 }));
            assert(s.skip(1) =~= seq![1u8, b]);
            assert(vli_parse(seq![1u8, b]) == (VliOutcome::Value { value: 1, len: 1 }));
            assert(s[2] == b);
            match f {
                Filter::Lzma2 { dict_size } => {
                    assert(dict_size == dict_size_of(b));
                },
            }
        },
        Option::None => {},
    }
}

proof fn lemma_first_dict_bits_hits(ds: u32, k: int, witness: u8)
    requires
        0 <= k <= witness <= 40,
        dict_size_of(witness) == ds,
    ensures
        match first_dict_bits(ds, k) {
            Option::Some(b2) => b2 <= 40 && dict_size_of(b2) == ds,
            Option::None => false,
        },
    decreases 41 - k,
{
    if dict_size_of(k as u8) == ds {
    } else {
        lemma_first_dict_bits_hits(ds, k + 1, witness);
    }
}

} // verus!
