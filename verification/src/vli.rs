//! Variable-length integers: unsigned, little-endian, base-128, with the
//! continuation bit in the most significant bit of each byte.
//!
//! At most nine bytes are accepted, so every value fits in 63 bits. A zero
//! byte that terminates a continuation run encodes nothing and is rejected,
//! as is a run that would need a tenth byte.

use vstd::arithmetic::power2::lemma2_to64;
use vstd::arithmetic::power2::lemma2_to64_rest;
use vstd::arithmetic::power2::lemma_pow2_adds;
use vstd::arithmetic::power2::lemma_pow2_strictly_increases;
use vstd::arithmetic::power2::pow2;
use vstd::prelude::*;

use crate::error::DecodeError;
use crate::reader::RecordedReader;

verus! {

/// What parsing a variable-length integer at byte index `k` of `s` yields.
pub enum VliOutcome {
    /// A value, with the total number of bytes of the whole field.
    Value { value: nat, len: int },
    /// The field needs a tenth byte, or ends in a needless zero byte.
    Overflow,
    /// The input ends inside the field.
    Truncated,
}

/// Parse the field bytes from index `k` on; the value is the one encoded by
/// the bytes from `k` to the end of the field, and `len` counts from index 0.
pub open spec fn vli_parse_at(s: Seq<u8>, k: int) -> VliOutcome
    decreases 9 - k,
{
    if k >= 9 {
        VliOutcome::Overflow
    } else if k >= s.len() {
        VliOutcome::Truncated
    } else {
        let b = s[k];
        if b & 0x80 == 0 {
            if b == 0 && k > 0 {
                VliOutcome::Overflow
            } else {
                VliOutcome::Value { value: b as nat, len: k + 1 }
            }
        } else {
            match vli_parse_at(s, k + 1) {
                VliOutcome::Value { value, len } => VliOutcome::Value {
                    value: (b & 0x7F) as nat + 128 * value,
                    len,
                },
                VliOutcome::Overflow => VliOutcome::Overflow,
                VliOutcome::Truncated => VliOutcome::Truncated,
            }
        }
    }
}

/// Parse a variable-length integer at the front of `s`.
pub open spec fn vli_parse(s: Seq<u8>) -> VliOutcome {
    vli_parse_at(s, 0)
}

/// The encoding of `v`: seven bits per byte, low bytes first, continuation
/// bit set on every byte but the last.
pub open spec fn vli_encode(v: nat) -> Seq<u8>
    decreases v,
{
    if v < 0x80 {
        seq![v as u8]
    } else {
        seq![(v % 128 + 128) as u8] + vli_encode(v / 128)
    }
}

/// A parsed value occupies fewer than `7 * (9 - k)` bits.
proof fn lemma_vli_value_bound(s: Seq<u8>, k: int)
    requires
        vli_parse_at(s, k) is Value,
    ensures
        vli_parse_at(s, k) matches VliOutcome::Value { value, len } ==> value < pow2(
            (7 * (9 - k)) as nat,
        ) && k < len <= 9,
    decreases 9 - k,
{
    lemma2_to64();
    let b = s[k];
    if b & 0x80 == 0 {
        assert(b & 0x80 == 0 ==> b < 0x80) by (bit_vector);
        if k < 8 {
            lemma_pow2_strictly_increases(7, (7 * (9 - k)) as nat);
        }
    } else {
        lemma_vli_value_bound(s, k + 1);
        match vli_parse_at(s, k + 1) {
            VliOutcome::Value { value: v1, len: l1 } => {
                assert(b & 0x7F < 0x80) by (bit_vector);
                lemma_pow2_adds((7 * (8 - k)) as nat, 7);
                assert(128 * v1 <= 128 * (pow2((7 * (8 - k)) as nat) - 1));
            },
            _ => {},
        }
    }
}

/// Parsing the encoding of `v` after `k` bytes already consumed yields `v`.
proof fn lemma_vli_parse_encode_at(s: Seq<u8>, k: int, v: u64)
    requires
        0 <= k <= 8,
        (v as nat) < pow2((7 * (9 - k)) as nat),
        v > 0 || k == 0,
        s.len() == k + vli_encode(v as nat).len(),
        s.skip(k) == vli_encode(v as nat),
    ensures
        vli_parse_at(s, k) == (VliOutcome::Value {
            value: v as nat,
            len: k + vli_encode(v as nat).len(),
        }),
    decreases v,
{
    lemma2_to64();
    assert(vli_encode(v as nat).len() >= 1);
    assert(s.len() >= k + 1);
    assert(s.skip(k)[0] == s[k]);
    if v < 0x80 {
        assert(vli_encode(v as nat) == seq![v as u8]);
        assert(s[k] == v as u8);
        assert((v as u8) & 0x80 == 0 && (v as u8) & 0x7F == v as u8 && ((v as u8) as nat == v
            as nat)) by (bit_vector)
            requires
                v < 0x80,
        ;
        assert(vli_parse_at(s, k) == (VliOutcome::Value { value: (v as u8) as nat, len: k + 1 }));
    } else {
        let b = (v % 128 + 128) as u8;
        assert(s[k] == b);
        assert(b & 0x80 != 0 && (b & 0x7F) as nat == (v as nat) % 128) by (bit_vector)
            requires
                b == ((v % 128 + 128) as u8),
        ;
        let v1 = v / 128;
        // At k == 8 only one byte may follow, so v < 2^7 would contradict
        // v >= 0x80; hence k + 1 <= 8 here.
        if k == 7 {
            assert(7 * (9 - (k + 1)) == 7);
        }
        assert(k + 1 <= 8) by {
            if k == 8 {
                assert(7 * (9 - 8) == 7);
            }
        }
        assert((v1 as nat) < pow2((7 * (9 - (k + 1))) as nat)) by {
            lemma_pow2_adds((7 * (8 - k)) as nat, 7);
        }
        let enc1 = vli_encode(v1 as nat);
        assert(s.skip(k) == seq![b] + enc1);
        assert forall|i: int| 0 <= i < enc1.len() implies s.skip(k + 1)[i] == enc1[i] by {
            assert(s.skip(k + 1)[i] == s[k + 1 + i]);
            assert(s.skip(k)[i + 1] == s[k + i + 1]);
            assert((seq![b] + enc1)[i + 1] == enc1[i]);
        }
        assert(s.skip(k + 1) =~= enc1);
        lemma_vli_parse_encode_at(s, k + 1, v1);
        assert((v as nat) == (v as nat) % 128 + 128 * ((v / 128) as nat));
    }
}

/// Encode-then-decode returns the value: every `v` below `2^63` round-trips.
pub proof fn lemma_vli_round_trip(v: u64)
    requires
        v < 0x8000_0000_0000_0000,
    ensures
        vli_parse(vli_encode(v as nat)) == (VliOutcome::Value {
            value: v as nat,
            len: vli_encode(v as nat).len() as int,
        }),
{
    lemma2_to64_rest();
    assert(vli_encode(v as nat).skip(0) =~= vli_encode(v as nat));
    lemma_vli_parse_encode_at(vli_encode(v as nat), 0, v);
}

/// Why a structured parse failed, by the error kind it owes.
pub enum ParseFail {
    /// A structural rule was broken: the malformed-header or
    /// malformed-index error is owed.
    Malformed,
    /// A variable-length integer field was overlong or zero-trailed.
    VliBad,
    /// The input ended inside the structure.
    Truncated,
    /// No failure.
    Fine,
}

/// The error a failure kind owes; `malformed` names the structure's own
/// malformed-kind error.
pub open spec fn fail_error(f: ParseFail, malformed: DecodeError) -> DecodeError {
    match f {
        ParseFail::Malformed => malformed,
        ParseFail::VliBad => DecodeError::VliOverflowError,
        ParseFail::Truncated => DecodeError::EndOfInput,
        ParseFail::Fine => malformed,
    }
}

/// An unsigned integer stored in variable-length form.
pub struct VarLengthInt(pub u64);

impl VarLengthInt {
    /// Read one variable-length integer from `src`.
    pub fn decode(src: &mut RecordedReader) -> (r: Result<VarLengthInt, DecodeError>)
        requires
            old(src).wf(),
        ensures
            final(src).wf(),
            final(src).src() == old(src).src(),
            final(src).mark() == old(src).mark(),
            final(src).pos() >= old(src).pos(),
            match r {
                Ok(v) => match vli_parse(old(src).src().skip(old(src).pos())) {
                    VliOutcome::Value { value, len } => value == v.0 as nat && final(src).pos()
                        == old(src).pos() + len,
                    _ => false,
                },
                Err(e) => {
                    ||| (e == DecodeError::VliOverflowError && vli_parse(
                        old(src).src().skip(old(src).pos()),
                    ) == VliOutcome::Overflow)
                    ||| (e == DecodeError::EndOfInput && vli_parse(
                        old(src).src().skip(old(src).pos()),
                    ) == VliOutcome::Truncated && final(src).pos() == final(src).src().len())
                },
            },
    {
        let ghost rem = old(src).src().skip(old(src).pos());
        match Self::decode_from(src, 0, Ghost(rem)) {
            Ok(v) => Ok(VarLengthInt(v)),
            Err(e) => Err(e),
        }
    }

    /// Read the field bytes from depth `k` on; `rem` is the input from the
    /// start of the whole field.
    fn decode_from(src: &mut RecordedReader, k: usize, Ghost(rem): Ghost<Seq<u8>>) -> (r: Result<
        u64,
        DecodeError,
    >)
        requires
            old(src).wf(),
            k <= 9,
            old(src).pos() >= k,
            rem == old(src).src().skip(old(src).pos() - k),
        ensures
            final(src).wf(),
            final(src).src() == old(src).src(),
            final(src).mark() == old(src).mark(),
            final(src).pos() >= old(src).pos(),
            match r {
                Ok(v) => match vli_parse_at(rem, k as int) {
                    VliOutcome::Value { value, len } => value == v as nat && final(src).pos()
                        == old(src).pos() - k + len,
                    _ => false,
                },
                Err(e) => {
                    ||| (e == DecodeError::VliOverflowError && vli_parse_at(rem, k as int)
                        == VliOutcome::Overflow)
                    ||| (e == DecodeError::EndOfInput && vli_parse_at(rem, k as int)
                        == VliOutcome::Truncated && final(src).pos() == final(src).src().len())
                },
            },
        decreases 9 - k,
    {
        if k >= 9 {
            return Err(DecodeError::VliOverflowError);
        }
        proof {
            assert(rem.len() == old(src).src().len() - (old(src).pos() - k));
            if old(src).pos() < old(src).src().len() {
                assert(rem[k as int] == old(src).src()[old(src).pos()]);
            }
        }
        let b = match src.read_u8() {
            Ok(b) => b,
            Err(e) => {
                return Err(e);
            },
        };
        if b & 0x80 == 0 {
            if b == 0 && k > 0 {
                Err(DecodeError::VliOverflowError)
            } else {
                proof {
                    assert(b & 0x80 == 0 ==> b & 0x7F == b && b < 0x80) by (bit_vector);
                }
                Ok(b as u64)
            }
        } else {
            let rest = match Self::decode_from(src, k + 1, Ghost(rem)) {
                Ok(v) => v,
                Err(e) => {
                    return Err(e);
                },
            };
            proof {
                lemma_vli_value_bound(rem, k + 1 as int);
                lemma2_to64();
                lemma2_to64_rest();
                if 7 * (8 - k) < 56 {
                    lemma_pow2_strictly_increases((7 * (8 - k)) as nat, 56);
                }
                assert(rest < 0x100_0000_0000_0000);
                assert(b & 0x7F < 0x80) by (bit_vector);
            }
            Ok((b & 0x7F) as u64 + 128 * rest)
        }
    }

    /// The variable-length encoding of this value.
    pub fn encoding(&self) -> (r: Vec<u8>)
        ensures
            r@ == vli_encode(self.0 as nat),
    {
        let mut out: Vec<u8> = Vec::new();
        let mut value: u64 = self.0;
        while value >= 0x80
            invariant
                vli_encode(self.0 as nat) == out@ + vli_encode(value as nat),
            decreases value,
        {
            out.push((value as u8) | 0x80);
            proof {
                assert((value as u8) | 0x80 == ((value % 128 + 128) as u8) && value / 128 < value
                    && (value >> 7) == value / 128) by (bit_vector)
                    requires
                        value >= 0x80,
                ;
                assert(out@ + vli_encode((value >> 7) as nat) =~= out@.drop_last() + (seq![(
                (value % 128 + 128) as u8)] + vli_encode((value / 128) as nat)));
            }
            value = value >> 7;
        }
        out.push(value as u8);
        proof {
            assert(vli_encode(value as nat) =~= seq![value as u8]);
            assert(out@ =~= out@.drop_last() + vli_encode(value as nat));
        }
        out
    }
}

} // verus!
