//! The adaptive binary arithmetic decoder at the bottom of LZMA.
//!
//! A pair `(range, code)` tracks the live interval of the arithmetic code.
//! Each bit decision splits `range` at a bound scaled by an adaptive 11-bit
//! probability; after every bit the decoder renormalizes by shifting one
//! input byte into `code` whenever `range` has dropped below `2^24`.

use vstd::prelude::*;

use crate::error::DecodeError;
use crate::reader::RecordedReader;

verus! {

/// The whole probability scale: `PROB_MAX` stands for certainty of a zero
/// bit, over eleven model bits. Adapted probabilities stay strictly inside
/// the scale, within `[31, 2017]`.
pub const PROB_MAX: u16 = 0x800;

/// The default probability: exactly the middle of the range.
pub const DEFAULT_PROB: u16 = 0x400;

/// Below this the range has a whole byte of free space and is renormalized.
pub const RANGE_MIN: u32 = 0x100_0000;

/// The split point of the current range for a given probability.
pub open spec fn rc_bound(range: u32, prob: u16) -> u32 {
    (((range >> 11) as int * prob as int) % 0x1_0000_0000) as u32
}

/// How a probability adapts after decoding a zero bit.
pub open spec fn prob_after_zero(p: u16) -> u16 {
    (p + (((0x800 - p) as u16) >> 5)) as u16
}

/// How a probability adapts after decoding a one bit.
pub open spec fn prob_after_one(p: u16) -> u16 {
    (p - (p >> 5)) as u16
}

/// Every probability in the vector is a reachable model value: adapted
/// probabilities never leave `[31, 2017]`.
pub open spec fn probs_wf(v: Seq<u16>) -> bool {
    forall|i: int| 0 <= i < v.len() ==> 31 <= #[trigger] v[i] <= 2017
}

proof fn lemma_prob_updates(p: u16)
    requires
        31 <= p <= 2017,
    ensures
        31 <= prob_after_zero(p) <= 2017,
        31 <= prob_after_one(p) <= p,
        p >> 5 <= p,
        ((0x800 - p) as u16) >> 5 <= 0x800 - p,
{
    assert((31 <= p && p <= 2017) ==> 31 <= ((p + (((0x800 - p) as u16) >> 5)) as u16) <= 2017
        && 31 <= ((p - (p >> 5)) as u16) <= p && p >> 5 <= p && ((0x800 - p) as u16) >> 5 <= (0x800
        - p) as u16) by (bit_vector);
}

proof fn lemma_bound_fits(range: u32, p: u16)
    requires
        31 <= p <= 2017,
        range >= 0x80_0000,
    ensures
        (range >> 11) as int * p as int <= 0xFFFF_F800,
        rc_bound(range, p) == (range >> 11) as int * p as int,
        rc_bound(range, p) <= range,
        rc_bound(range, p) >= 0x1_0000,
        range - rc_bound(range, p) >= (range >> 11) as int * 31,
        (range >> 11) as int * 31 >= 0x1_0000,
{
    assert(range >> 11 <= 0x1F_FFFF && (range >= 0x80_0000 ==> range >> 11 >= 0x1000))
        by (bit_vector);
    assert((range >> 11) as int * p as int <= 0x1F_FFFF * 0x800) by (nonlinear_arith)
        requires
            range >> 11 <= 0x1F_FFFF,
            0 <= p <= 0x800,
    ;
    assert((range >> 11) as int * 0x800 <= range) by (bit_vector);
    assert((range >> 11) as int * p as int <= (range >> 11) as int * 0x800) by (nonlinear_arith)
        requires
            0 <= p <= 0x800,
    ;
    assert((range >> 11) as int * p as int >= (range >> 11) as int * 31) by (nonlinear_arith)
        requires
            31 <= p,
    ;
    assert((range >> 11) as int * 31 >= 0x1000 * 31) by (nonlinear_arith)
        requires
            range >> 11 >= 0x1000,
    ;
    assert(range - (range >> 11) as int * p as int >= (range >> 11) as int * (0x800 - p as int))
        by (nonlinear_arith)
        requires
            (range >> 11) as int * 0x800 <= range,
    ;
    assert((range >> 11) as int * (0x800 - p as int) >= (range >> 11) as int * 31)
        by (nonlinear_arith)
        requires
            p <= 2017,
            range >> 11 >= 0,
    ;
}

/// The pair `(range, code)` of the arithmetic decoder.
pub struct RangeDecoder {
    pub range: u32,
    pub code: u32,
}

/// What decoding one bit yields at the specification level.
pub enum BitStep {
    /// The decoded bit with the decoder, probability and input cursor
    /// after the split and the renormalization.
    Bit { bit: bool, rc: RangeDecoder, prob: u16, pos: int },
    /// Renormalization needed a byte the input does not have.
    Exhausted,
}

/// The specification of one adaptive bit: split the range at the bound,
/// adapt the probability towards the outcome, then renormalize, taking
/// one byte of `s` when the range has dropped below `2^24`.
pub open spec fn bit_step(rc: RangeDecoder, prob: u16, s: Seq<u8>, pos: int) -> BitStep {
    let bound = rc_bound(rc.range, prob);
    let bit = rc.code >= bound;
    let p1 = if bit {
        prob_after_one(prob)
    } else {
        prob_after_zero(prob)
    };
    let r1 = if bit {
        (rc.range - bound) as u32
    } else {
        bound
    };
    let c1 = if bit {
        (rc.code - bound) as u32
    } else {
        rc.code
    };
    if r1 >= 0x100_0000 {
        BitStep::Bit { bit, rc: (RangeDecoder { range: r1, code: c1 }), prob: p1, pos }
    } else if pos < s.len() {
        BitStep::Bit {
            bit,
            rc: (RangeDecoder { range: r1 << 8, code: (c1 << 8) | (s[pos] as u32) }),
            prob: p1,
            pos: pos + 1,
        }
    } else {
        BitStep::Exhausted
    }
}

/// What a whole probability-tree walk yields at the specification level.
pub enum TreeStep {
    /// The final tree node with the decoder, probability vector and input
    /// cursor after the walk.
    Sym { sym: int, rc: RangeDecoder, probs: Seq<u16>, pos: int },
    /// Some bit of the walk ran out of input.
    Exhausted,
}

/// The specification of `bit_tree` from node `symbol`: one adaptive bit
/// per level, each appended below the node it came from.
pub open spec fn tree_steps(
    rc: RangeDecoder,
    probs: Seq<u16>,
    base: int,
    limit: int,
    s: Seq<u8>,
    pos: int,
    symbol: int,
) -> TreeStep
    decreases
            (if 1 <= symbol < limit {
                limit - symbol
            } else {
                0
            }),
{
    if symbol < 1 || symbol >= limit {
        TreeStep::Sym { sym: symbol, rc, probs, pos }
    } else {
        match bit_step(rc, probs[base + symbol], s, pos) {
            BitStep::Bit { bit, rc: rc2, prob: p2, pos: pos2 } => tree_steps(
                rc2,
                probs.update(base + symbol, p2),
                base,
                limit,
                s,
                pos2,
                2 * symbol + (if bit {
                    1int
                } else {
                    0int
                }),
            ),
            BitStep::Exhausted => TreeStep::Exhausted,
        }
    }
}

/// The specification of `bit_tree_rev`: `bits_left` adaptive bits, each
/// adding `step` to the accumulator when set, with `step` doubling.
pub open spec fn rev_tree_steps(
    rc: RangeDecoder,
    probs: Seq<u16>,
    base: int,
    s: Seq<u8>,
    pos: int,
    symbol: int,
    acc: int,
    step: int,
    bits_left: int,
) -> TreeStep
    decreases bits_left,
{
    if bits_left <= 0 {
        TreeStep::Sym { sym: acc, rc, probs, pos }
    } else {
        match bit_step(rc, probs[base + symbol - 1], s, pos) {
            BitStep::Bit { bit, rc: rc2, prob: p2, pos: pos2 } => rev_tree_steps(
                rc2,
                probs.update(base + symbol - 1, p2),
                base,
                s,
                pos2,
                2 * symbol + (if bit {
                    1int
                } else {
                    0int
                }),
                acc + (if bit {
                    step
                } else {
                    0int
                }),
                step * 2,
                bits_left - 1,
            ),
            BitStep::Exhausted => TreeStep::Exhausted,
        }
    }
}

/// What a run of equiprobable bits yields at the specification level.
pub enum DirectStep {
    /// The accumulated value with the decoder and input cursor after.
    Val { v: int, rc: RangeDecoder, pos: int },
    /// Renormalization ran out of input.
    Exhausted,
}

/// The specification of `direct`: per bit, renormalize first, halve the
/// range, and take the bit from the side of the range the code lies in.
pub open spec fn direct_steps(rc: RangeDecoder, s: Seq<u8>, pos: int, acc: int, count: int) -> DirectStep
    decreases count,
{
    if count <= 0 {
        DirectStep::Val { v: acc, rc, pos }
    } else {
        let norm = if rc.range >= 0x100_0000 {
            Option::Some((rc, pos))
        } else if pos < s.len() {
            Option::Some(
                (
                    RangeDecoder { range: rc.range << 8, code: (rc.code << 8) | (s[pos] as u32) },
                    pos + 1,
                ),
            )
        } else {
            Option::None
        };
        match norm {
            Option::Some((rc1, pos1)) => {
                let half = rc1.range >> 1;
                let bit = rc1.code >= half;
                let c2 = if bit {
                    (rc1.code - half) as u32
                } else {
                    rc1.code
                };
                direct_steps(
                    RangeDecoder { range: half, code: c2 },
                    s,
                    pos1,
                    2 * acc + (if bit {
                        1int
                    } else {
                        0int
                    }),
                    count - 1,
                )
            },
            Option::None => DirectStep::Exhausted,
        }
    }
}

impl RangeDecoder {
    /// A decoder with an empty interval; `initialize` must follow before use.
    pub fn new() -> (r: Self)
        ensures
            r.range == 0,
            r.code == 0,
    {
        RangeDecoder { range: 0, code: 0 }
    }

    /// Load the initial code: skip one input byte, then read four big-endian
    /// bytes; the range opens at full width.
    pub fn initialize(&mut self, src: &mut RecordedReader) -> (r: Result<(), DecodeError>)
        requires
            old(src).wf(),
        ensures
            final(src).wf(),
            final(src).src() == old(src).src(),
            final(src).mark() == old(src).mark(),
            final(src).pos() >= old(src).pos(),
            match r {
                Ok(()) => {
                    &&& old(src).pos() + 5 <= old(src).src().len()
                    &&& final(self).range == u32::MAX
                    &&& final(self).code as nat == crate::reader::be32_of(
                        old(src).src().skip(old(src).pos() + 1),
                    )
                    &&& final(src).pos() == old(src).pos() + 5
                },
                Err(e) => {
                    &&& e == DecodeError::EndOfInput
                    &&& old(src).pos() + 5 > old(src).src().len()
                    &&& *final(self) == *old(self)
                },
            },
    {
        if src.remaining() < 5 {
            return Err(DecodeError::EndOfInput);
        }
        let _skip = match src.read_u8() {
            Ok(b) => b,
            Err(e) => {
                return Err(e);
            },
        };
        let code = match src.read_be_u32() {
            Ok(v) => v,
            Err(e) => {
                return Err(e);
            },
        };
        self.range = u32::MAX;
        self.code = code;
        Ok(())
    }

    /// If the range has a byte of free space, shift one input byte into the
    /// low end of the code, restoring `range >= RANGE_MIN`: one shift is
    /// the whole renormalization loop, because the range never falls
    /// below `2^16` between bits.
    pub fn normalize(&mut self, src: &mut RecordedReader) -> (r: Result<(), DecodeError>)
        requires
            old(src).wf(),
            old(self).range >= 0x1_0000,
        ensures
            final(src).wf(),
            final(src).src() == old(src).src(),
            final(src).mark() == old(src).mark(),
            r is Ok ==> final(self).range >= 0x100_0000,
            match r {
                Ok(()) => {
                    if old(self).range >= 0x100_0000 {
                        *final(self) == *old(self) && final(src).pos() == old(src).pos()
                    } else {
                        &&& old(src).pos() < old(src).src().len()
                        &&& final(self).range == old(self).range << 8
                        &&& final(self).code == (old(self).code << 8) | (old(src).src()[old(
                            src,
                        ).pos()] as u32)
                        &&& final(src).pos() == old(src).pos() + 1
                    }
                },
                Err(e) => {
                    &&& e == DecodeError::EndOfInput
                    &&& old(self).range < 0x100_0000
                    &&& old(src).pos() == old(src).src().len()
                    &&& final(src).pos() == old(src).pos()
                    &&& *final(self) == *old(self)
                },
            },
    {
        if self.range < RANGE_MIN {
            let b = match src.read_u8() {
                Ok(b) => b,
                Err(e) => {
                    return Err(e);
                },
            };
            proof {
                let rg = self.range;
                assert((0x1_0000 <= rg && rg < 0x100_0000) ==> (rg << 8) >= 0x100_0000)
                    by (bit_vector);
            }
            self.range = self.range << 8;
            self.code = (self.code << 8) | (b as u32);
        }
        Ok(())
    }

    /// Decode one bit against the adaptive probability `prob`, update the
    /// probability towards the observed bit, and renormalize.
    pub fn decode_bit(&mut self, src: &mut RecordedReader, prob: &mut u16) -> (r: Result<
        bool,
        DecodeError,
    >)
        requires
            old(src).wf(),
            31 <= *old(prob) <= 2017,
            old(self).range >= 0x80_0000,
        ensures
            final(src).wf(),
            final(src).src() == old(src).src(),
            final(src).mark() == old(src).mark(),
            old(src).pos() <= final(src).pos() <= old(src).pos() + 1,
            31 <= *final(prob) <= 2017,
            r is Ok ==> final(self).range >= 0x100_0000,
            match r {
                Ok(bit) => bit_step(*old(self), *old(prob), old(src).src(), old(src).pos()) == (
                BitStep::Bit { bit, rc: *final(self), prob: *final(prob), pos: final(src).pos() }),
                Err(e) => e == DecodeError::EndOfInput && bit_step(
                    *old(self),
                    *old(prob),
                    old(src).src(),
                    old(src).pos(),
                ) == BitStep::Exhausted,
            },
            match r {
                Ok(bit) => {
                    let bound = rc_bound(old(self).range, *old(prob));
                    let r1 = if bit {
                        (old(self).range - bound) as u32
                    } else {
                        bound
                    };
                    let c1 = if bit {
                        (old(self).code - bound) as u32
                    } else {
                        old(self).code
                    };
                    &&& bit == (old(self).code >= bound)
                    &&& *final(prob) == (if bit {
                        prob_after_one(*old(prob))
                    } else {
                        prob_after_zero(*old(prob))
                    })
                    &&& (if r1 >= 0x100_0000 {
                        final(self).range == r1 && final(self).code == c1 && final(src).pos()
                            == old(src).pos()
                    } else {
                        &&& old(src).pos() < old(src).src().len()
                        &&& final(self).range == r1 << 8
                        &&& final(self).code == (c1 << 8) | (old(src).src()[old(src).pos()] as u32)
                        &&& final(src).pos() == old(src).pos() + 1
                    })
                },
                Err(e) => e == DecodeError::EndOfInput && old(src).pos() == old(src).src().len(),
            },
    {
        proof {
            lemma_bound_fits(self.range, *prob);
            lemma_prob_updates(*prob);
        }
        let bound = (self.range >> 11) * (*prob as u32);
        let bit = self.code >= bound;
        if bit {
            *prob = *prob - (*prob >> 5);
            self.code = self.code - bound;
            self.range = self.range - bound;
        } else {
            *prob = *prob + ((PROB_MAX - *prob) >> 5);
            self.range = bound;
        }
        match self.normalize(src) {
            Ok(()) => Ok(bit),
            Err(e) => Err(e),
        }
    }

    /// Walk a balanced binary probability tree of size `limit`, accumulating
    /// one decoded bit per level; the result carries the tree offset, so it
    /// lies in `[limit, 2 * limit)` and callers subtract `limit`.
    pub fn bit_tree(
        &mut self,
        src: &mut RecordedReader,
        probs: &mut Vec<u16>,
        base: usize,
        limit: usize,
    ) -> (r: Result<usize, DecodeError>)
        requires
            old(src).wf(),
            probs_wf(old(probs)@),
            1 <= limit <= 0x4000,
            base + limit <= old(probs).len(),
            old(self).range >= 0x80_0000,
        ensures
            final(src).wf(),
            final(src).src() == old(src).src(),
            final(src).mark() == old(src).mark(),
            final(src).pos() >= old(src).pos(),
            final(probs).len() == old(probs).len(),
            probs_wf(final(probs)@),
            forall|i: int|
                0 <= i < old(probs).len() && !(base <= i < base + limit)
                    ==> final(probs)@[i] == old(probs)@[i],
            r is Ok ==> final(self).range >= 0x80_0000,
            match r {
                Ok(sym) => limit <= sym < 2 * limit && tree_steps(
                    *old(self),
                    old(probs)@,
                    base as int,
                    limit as int,
                    old(src).src(),
                    old(src).pos(),
                    1,
                ) == (TreeStep::Sym {
                    sym: sym as int,
                    rc: *final(self),
                    probs: final(probs)@,
                    pos: final(src).pos(),
                }),
                Err(e) => e == DecodeError::EndOfInput && tree_steps(
                    *old(self),
                    old(probs)@,
                    base as int,
                    limit as int,
                    old(src).src(),
                    old(src).pos(),
                    1,
                ) == TreeStep::Exhausted,
            },
    {
        let mut symbol: usize = 1;
        while symbol < limit
            invariant
                src.wf(),
                src.src() == old(src).src(),
                src.mark() == old(src).mark(),
                src.pos() >= old(src).pos(),
                probs.len() == old(probs).len(),
                probs_wf(probs@),
                forall|i: int|
                    0 <= i < old(probs).len() && !(base <= i < base + limit) ==> probs@[i] == old(
                        probs,
                    )@[i],
                self.range >= 0x80_0000,
                1 <= symbol < 2 * limit,
                limit <= 0x4000,
                base + limit <= probs.len(),
                tree_steps(
                    *old(self),
                    old(probs)@,
                    base as int,
                    limit as int,
                    old(src).src(),
                    old(src).pos(),
                    1,
                ) == tree_steps(
                    *self,
                    probs@,
                    base as int,
                    limit as int,
                    src.src(),
                    src.pos(),
                    symbol as int,
                ),
            decreases 2 * limit - symbol,
        {
            let ghost pre_self = *self;
            let ghost pre_probs = probs@;
            let ghost pre_pos = src.pos();
            let mut p = probs[base + symbol];
            let bit = match self.decode_bit(src, &mut p) {
                Ok(b) => b,
                Err(e) => {
                    return Err(e);
                },
            };
            probs.set(base + symbol, p);
            proof {
                assert(probs@ =~= pre_probs.update(base + symbol, p));
            }
            symbol = 2 * symbol + (if bit {
                1
            } else {
                0
            });
        }
        Ok(symbol)
    }

    /// Walk a probability tree, emitting the decoded bits least significant
    /// first on top of `initial`, whose low `bits` bits must be free; tree
    /// node `symbol` lives at `probs[base + symbol - 1]`.
    pub fn bit_tree_rev(
        &mut self,
        src: &mut RecordedReader,
        probs: &mut Vec<u16>,
        base: usize,
        initial: u32,
        bits: usize,
    ) -> (r: Result<u32, DecodeError>)
        requires
            old(src).wf(),
            probs_wf(old(probs)@),
            bits <= 9,
            base + pow2_usize(bits) <= old(probs).len() + 1,
            initial as int + pow2_int(bits as int) <= 0x1_0000_0000,
            old(self).range >= 0x80_0000,
        ensures
            final(src).wf(),
            final(src).src() == old(src).src(),
            final(src).mark() == old(src).mark(),
            final(src).pos() >= old(src).pos(),
            final(probs).len() == old(probs).len(),
            probs_wf(final(probs)@),
            forall|i: int|
                0 <= i < old(probs).len() && !(base <= i + 1 < base + pow2_usize(bits))
                    ==> final(probs)@[i] == old(probs)@[i],
            r is Ok ==> final(self).range >= 0x80_0000,
            match r {
                Ok(v) => initial <= v && (v as int) < initial as int + pow2_int(bits as int)
                    && rev_tree_steps(
                    *old(self),
                    old(probs)@,
                    base as int,
                    old(src).src(),
                    old(src).pos(),
                    1,
                    initial as int,
                    1,
                    bits as int,
                ) == (TreeStep::Sym {
                    sym: v as int,
                    rc: *final(self),
                    probs: final(probs)@,
                    pos: final(src).pos(),
                }),
                Err(e) => e == DecodeError::EndOfInput && rev_tree_steps(
                    *old(self),
                    old(probs)@,
                    base as int,
                    old(src).src(),
                    old(src).pos(),
                    1,
                    initial as int,
                    1,
                    bits as int,
                ) == TreeStep::Exhausted,
            },
    {
        let mut symbol: usize = 1;
        let mut acc: u32 = initial;
        let mut step: u32 = 1;
        let mut i: usize = 0;
        while i < bits
            invariant
                src.wf(),
                src.src() == old(src).src(),
                src.mark() == old(src).mark(),
                src.pos() >= old(src).pos(),
                probs.len() == old(probs).len(),
                probs_wf(probs@),
                forall|j: int|
                    0 <= j < old(probs).len() && !(base <= j + 1 < base + pow2_usize(bits))
                        ==> probs@[j] == old(probs)@[j],
                self.range >= 0x80_0000,
                i <= bits,
                bits <= 9,
                base + pow2_usize(bits) <= probs.len() + 1,
                initial as int + pow2_int(bits as int) <= 0x1_0000_0000,
                step == pow2_int(i as int),
                1 <= symbol && symbol < pow2_usize(i) + pow2_usize(i),
                initial <= acc,
                (acc as int) < initial as int + step,
                rev_tree_steps(
                    *old(self),
                    old(probs)@,
                    base as int,
                    old(src).src(),
                    old(src).pos(),
                    1,
                    initial as int,
                    1,
                    bits as int,
                ) == rev_tree_steps(
                    *self,
                    probs@,
                    base as int,
                    src.src(),
                    src.pos(),
                    symbol as int,
                    acc as int,
                    step as int,
                    bits - i,
                ),
            decreases bits - i,
        {
            proof {
                lemma_pow2_int_increases(i + 1 as int, bits as int);
                lemma_pow2_usize_table(i, bits);
                assert(pow2_int((i + 1) as int) == 2 * pow2_int(i as int));
                lemma_pow2_int_small();
                lemma_pow2_int_increases(i as int, 8);
            }
            let ghost pre_probs = probs@;
            let mut p = probs[base + symbol - 1];
            let bit = match self.decode_bit(src, &mut p) {
                Ok(b) => b,
                Err(e) => {
                    return Err(e);
                },
            };
            probs.set(base + symbol - 1, p);
            proof {
                assert(probs@ =~= pre_probs.update(base + symbol - 1, p));
            }
            if bit {
                acc = acc + step;
            }
            symbol = 2 * symbol + (if bit {
                1
            } else {
                0
            });
            step = step * 2;
            i = i + 1;
        }
        Ok(acc)
    }

    /// Decode `count` equiprobable bits into `initial`, most significant
    /// first, without touching any probability model.
    pub fn direct(&mut self, src: &mut RecordedReader, initial: u32, count: usize) -> (r: Result<
        u32,
        DecodeError,
    >)
        requires
            old(src).wf(),
            count <= 30,
            (initial as int + 1) * pow2_int(count as int) <= 0x1_0000_0000,
            old(self).range >= 0x80_0000,
        ensures
            final(src).wf(),
            final(src).src() == old(src).src(),
            final(src).mark() == old(src).mark(),
            final(src).pos() >= old(src).pos(),
            r is Ok ==> final(self).range >= 0x80_0000,
            match r {
                Ok(v) => initial as int * pow2_int(count as int) <= v as int && (v as int) < (
                initial as int + 1) * pow2_int(count as int) && direct_steps(
                    *old(self),
                    old(src).src(),
                    old(src).pos(),
                    initial as int,
                    count as int,
                ) == (DirectStep::Val { v: v as int, rc: *final(self), pos: final(src).pos() }),
                Err(e) => e == DecodeError::EndOfInput && direct_steps(
                    *old(self),
                    old(src).src(),
                    old(src).pos(),
                    initial as int,
                    count as int,
                ) == DirectStep::Exhausted,
            },
    {
        let mut acc: u32 = initial;
        let mut i: usize = 0;
        proof {
            lemma_pow2_int_pos(count as int);
            assert(initial as int * pow2_int(count as int) <= acc as int * pow2_int(
                (count - i) as int,
            ));
        }
        while i < count
            invariant
                src.wf(),
                src.src() == old(src).src(),
                src.mark() == old(src).mark(),
                src.pos() >= old(src).pos(),
                self.range >= 0x80_0000,
                i <= count,
                count <= 30,
                (initial as int + 1) * pow2_int(count as int) <= 0x1_0000_0000,
                direct_steps(
                    *old(self),
                    old(src).src(),
                    old(src).pos(),
                    initial as int,
                    count as int,
                ) == direct_steps(*self, src.src(), src.pos(), acc as int, (count - i) as int),
                initial as int * pow2_int(count as int) <= acc as int * pow2_int((count - i) as int),
                (acc as int + 1) * pow2_int((count - i) as int) <= (initial as int + 1) * pow2_int(
                    count as int,
                ),
            decreases count - i,
        {
            match self.normalize(src) {
                Ok(()) => (),
                Err(e) => {
                    return Err(e);
                },
            }
            proof {
                lemma_pow2_int_pos((count - i - 1) as int);
                lemma_direct_step(acc as int, count - i);
                assert((acc as int + 1) * 2 <= 0x1_0000_0000) by (nonlinear_arith)
                    requires
                        (acc as int + 1) * pow2_int((count - i) as int) <= 0x1_0000_0000,
                        pow2_int((count - i) as int) >= 2,
                        acc as int >= 0,
                ;
            }
            proof {
                let rg = self.range;
                assert(rg >= 0x100_0000 ==> (rg >> 1) >= 0x80_0000) by (bit_vector);
            }
            self.range = self.range >> 1;
            let bit = self.code >= self.range;
            if bit {
                self.code = self.code - self.range;
            }
            acc = 2 * acc + (if bit {
                1
            } else {
                0
            });
            i = i + 1;
        }
        proof {
            assert(pow2_int(0) == 1);
        }
        Ok(acc)
    }
}

/// `2^e` as a mathematical integer.
pub open spec fn pow2_int(e: int) -> int
    decreases e,
{
    if e <= 0 {
        1
    } else {
        2 * pow2_int(e - 1)
    }
}

/// `2^e` as a `usize`; callers keep `e` small enough to fit.
pub open spec fn pow2_usize(e: usize) -> usize
    recommends
        e < 16,
{
    if e == 0 {
        1usize
    } else if e == 1 {
        2usize
    } else if e == 2 {
        4usize
    } else if e == 3 {
        8usize
    } else if e == 4 {
        16usize
    } else if e == 5 {
        32usize
    } else if e == 6 {
        64usize
    } else if e == 7 {
        128usize
    } else if e == 8 {
        256usize
    } else {
        512usize
    }
}

pub proof fn lemma_pow2_int_pos(e: int)
    ensures
        pow2_int(e) >= 1,
    decreases
            (if e > 0 {
                e
            } else {
                0
            }),
{
    if e > 0 {
        lemma_pow2_int_pos(e - 1);
    }
}

pub proof fn lemma_pow2_int_increases(a: int, b: int)
    requires
        a <= b,
    ensures
        pow2_int(a) <= pow2_int(b),
    decreases
            (if b > 0 {
                b
            } else {
                0
            }),
{
    if b > 0 && a < b {
        lemma_pow2_int_increases(a, b - 1);
        lemma_pow2_int_pos(b - 1);
    }
}

/// Concrete values of the small powers of two.
pub proof fn lemma_pow2_int_small()
    ensures
        pow2_int(1) == 2,
        pow2_int(2) == 4,
        pow2_int(3) == 8,
        pow2_int(4) == 16,
        pow2_int(5) == 32,
        pow2_int(8) == 256,
        pow2_int(9) == 512,
        pow2_int(26) == 0x400_0000,
{
    reveal_with_fuel(pow2_int, 30);
}

/// The successive powers of two in the small table double and grow.
proof fn lemma_pow2_usize_table(i: usize, bits: usize)
    requires
        i < bits <= 9,
    ensures
        pow2_usize((i + 1) as usize) == 2 * pow2_usize(i),
        2 * pow2_usize(i) <= pow2_usize(bits),
{
}

/// One direct-bit step keeps both interval bounds: doubling the accumulator
/// (plus either bit) against one fewer remaining bit.
proof fn lemma_direct_step(acc: int, rem: int)
    requires
        rem >= 1,
        acc >= 0,
    ensures
        pow2_int(rem) == 2 * pow2_int(rem - 1),
        pow2_int(rem) >= 2,
        (2 * acc) * pow2_int(rem - 1) == acc * pow2_int(rem),
        (2 * acc + 1) * pow2_int(rem - 1) >= acc * pow2_int(rem),
        (2 * acc + 1 + 1) * pow2_int(rem - 1) <= (acc + 1) * pow2_int(rem),
        (2 * acc + 0 + 1) * pow2_int(rem - 1) <= (acc + 1) * pow2_int(rem),
{
    lemma_pow2_int_pos(rem - 1);
    assert((2 * acc) * pow2_int(rem - 1) == acc * (2 * pow2_int(rem - 1))) by (nonlinear_arith);
    assert((2 * acc + 2) * pow2_int(rem - 1) == (acc + 1) * (2 * pow2_int(rem - 1)))
        by (nonlinear_arith);
    assert((2 * acc + 1) * pow2_int(rem - 1) >= (2 * acc) * pow2_int(rem - 1)) by (nonlinear_arith)
        requires
            pow2_int(rem - 1) >= 1,
            acc >= 0,
    ;
    assert((2 * acc + 1) * pow2_int(rem - 1) <= (2 * acc + 2) * pow2_int(rem - 1))
        by (nonlinear_arith)
        requires
            pow2_int(rem - 1) >= 1,
            acc >= 0,
    ;
}

} // verus!
