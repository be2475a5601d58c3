//! The three-tier match-length decoder.
//!
//! Two choice bits pick one of three probability trees: lengths 2..=9 from
//! a 3-bit tree per position state, 10..=17 from a second such tree, and
//! 18..=273 from one shared 8-bit tree.

use vstd::prelude::*;

use crate::error::DecodeError;
use crate::range_decoder::bit_step;
use crate::range_decoder::probs_wf;
use crate::range_decoder::tree_steps;
use crate::range_decoder::BitStep;
use crate::range_decoder::RangeDecoder;
use crate::range_decoder::TreeStep;
use crate::range_decoder::DEFAULT_PROB;
use crate::reader::RecordedReader;

verus! {

/// What decoding one match length yields at the specification level.
pub enum LenStep {
    /// The length with the length-decoder model, range decoder and input
    /// cursor after the decode.
    Len { len: int, model: (u16, u16, Seq<u16>, Seq<u16>, Seq<u16>), rc: RangeDecoder, pos: int },
    /// Some bit ran out of input.
    Exhausted,
}

/// A probability vector of length `n`, all entries at the default.
pub fn filled_probs(n: usize) -> (r: Vec<u16>)
    ensures
        r.len() == n,
        forall|i: int| 0 <= i < n ==> r[i] == DEFAULT_PROB,
{
    let mut v: Vec<u16> = Vec::new();
    let mut i: usize = 0;
    while i < n
        invariant
            i <= n,
            v.len() == i,
            forall|j: int| 0 <= j < i ==> v[j] == DEFAULT_PROB,
        decreases n - i,
    {
        v.push(DEFAULT_PROB);
        i = i + 1;
    }
    v
}

/// The specification of `LenDecoder::decode` over the plain model: the
/// first choice bit picks lengths
/// 2..=9 from a per-position-state 3-bit tree; otherwise the second
/// picks 10..=17 from another, or 18..=273 from the shared 8-bit tree.
pub open spec fn len_steps_m(
model: (u16, u16, Seq<u16>, Seq<u16>, Seq<u16>),
rc: RangeDecoder,
s: Seq<u8>,
pos: int,
pos_state: int,
) -> LenStep {
    match bit_step(rc, model.0, s, pos) {
        BitStep::Bit { bit: first, rc: rc1, prob: c1, pos: p1 } => {
            if !first {
                match tree_steps(rc1, model.2, pos_state * 8, 8, s, p1, 1) {
                    TreeStep::Sym { sym, rc: rc2, probs: low2, pos: p2 } => LenStep::Len {
                        len: 2 + sym - 8,
                        model: (c1, model.1, low2, model.3, model.4),
                        rc: rc2,
                        pos: p2,
                    },
                    TreeStep::Exhausted => LenStep::Exhausted,
                }
            } else {
                match bit_step(rc1, model.1, s, p1) {
                    BitStep::Bit { bit: second, rc: rc2, prob: c2, pos: p2 } => {
                        if !second {
                            match tree_steps(rc2, model.3, pos_state * 8, 8, s, p2, 1) {
                                TreeStep::Sym {
                                    sym,
                                    rc: rc3,
                                    probs: mid2,
                                    pos: p3,
                                } => LenStep::Len {
                                    len: 10 + sym - 8,
                                    model: (c1, c2, model.2, mid2, model.4),
                                    rc: rc3,
                                    pos: p3,
                                },
                                TreeStep::Exhausted => LenStep::Exhausted,
                            }
                        } else {
                            match tree_steps(rc2, model.4, 0, 256, s, p2, 1) {
                                TreeStep::Sym {
                                    sym,
                                    rc: rc3,
                                    probs: high2,
                                    pos: p3,
                                } => LenStep::Len {
                                    len: 18 + sym - 256,
                                    model: (c1, c2, model.2, model.3, high2),
                                    rc: rc3,
                                    pos: p3,
                                },
                                TreeStep::Exhausted => LenStep::Exhausted,
                            }
                        }
                    },
                    BitStep::Exhausted => LenStep::Exhausted,
                }
            }
        },
        BitStep::Exhausted => LenStep::Exhausted,
    }
}


/// The model of a freshly reset length decoder: every probability at
/// the default.
pub open spec fn reset_len_model() -> (u16, u16, Seq<u16>, Seq<u16>, Seq<u16>) {
    (
        0x400u16,
        0x400u16,
        Seq::new(128, |i: int| 0x400u16),
        Seq::new(128, |i: int| 0x400u16),
        Seq::new(256, |i: int| 0x400u16),
    )
}

/// The decoder for one class of match lengths.
pub struct LenDecoder {
    /// Probability of the length being at least 10.
    choice: u16,
    /// Probability of the length being at least 18.
    choice2: u16,
    /// One 3-bit tree per position state, for lengths 2..=9.
    low: Vec<u16>,
    /// One 3-bit tree per position state, for lengths 10..=17.
    mid: Vec<u16>,
    /// One shared 8-bit tree, for lengths 18..=273.
    high: Vec<u16>,
}

impl LenDecoder {
    pub closed spec fn wf(self) -> bool {
        &&& 31 <= self.choice <= 2017
        &&& 31 <= self.choice2 <= 2017
        &&& self.low.len() == 128
        &&& self.mid.len() == 128
        &&& self.high.len() == 256
        &&& probs_wf(self.low@)
        &&& probs_wf(self.mid@)
        &&& probs_wf(self.high@)
    }

    /// The adaptive state as plain values: the two choice probabilities
    /// and the three trees.
    pub closed spec fn model(self) -> (u16, u16, Seq<u16>, Seq<u16>, Seq<u16>) {
        (self.choice, self.choice2, self.low@, self.mid@, self.high@)
    }

    /// The specification of `decode`, phrased on the decoder itself.
    pub open spec fn len_steps(
        self,
        rc: RangeDecoder,
        s: Seq<u8>,
        pos: int,
        pos_state: int,
    ) -> LenStep {
        len_steps_m(self.model(), rc, s, pos, pos_state)
    }

    /// Every probability is back at the default.
    pub closed spec fn is_reset(self) -> bool {
        &&& self.choice == DEFAULT_PROB
        &&& self.choice2 == DEFAULT_PROB
        &&& (forall|i: int| 0 <= i < self.low.len() ==> self.low[i] == DEFAULT_PROB)
        &&& (forall|i: int| 0 <= i < self.mid.len() ==> self.mid[i] == DEFAULT_PROB)
        &&& (forall|i: int| 0 <= i < self.high.len() ==> self.high[i] == DEFAULT_PROB)
    }

    /// A reset decoder's model is the reset model.
    pub proof fn lemma_reset_model(self)
        requires
            self.wf(),
            self.is_reset(),
        ensures
            self.model() == reset_len_model(),
    {
        assert(self.model().2 =~= reset_len_model().2);
        assert(self.model().3 =~= reset_len_model().3);
        assert(self.model().4 =~= reset_len_model().4);
    }

    pub fn new() -> (r: Self)
        ensures
            r.wf(),
            r.is_reset(),
    {
        LenDecoder {
            choice: DEFAULT_PROB,
            choice2: DEFAULT_PROB,
            low: filled_probs(128),
            mid: filled_probs(128),
            high: filled_probs(256),
        }
    }

    /// Return every probability to the default.
    pub fn reset(&mut self)
        ensures
            final(self).wf(),
            final(self).is_reset(),
    {
        self.choice = DEFAULT_PROB;
        self.choice2 = DEFAULT_PROB;
        self.low = filled_probs(128);
        self.mid = filled_probs(128);
        self.high = filled_probs(256);
    }

    /// Decode one match length, between 2 and 273.
    pub fn decode(
        &mut self,
        src: &mut RecordedReader,
        rc: &mut RangeDecoder,
        pos_state: usize,
    ) -> (r: Result<usize, DecodeError>)
        requires
            old(src).wf(),
            old(self).wf(),
            pos_state < 16,
            old(rc).range >= 0x80_0000,
        ensures
            final(src).wf(),
            final(src).src() == old(src).src(),
            final(src).mark() == old(src).mark(),
            final(src).pos() >= old(src).pos(),
            final(self).wf(),
            r is Ok ==> final(rc).range >= 0x80_0000,
            match r {
                Ok(len) => 2 <= len <= 273 && old(self).len_steps(
                    *old(rc),
                    old(src).src(),
                    old(src).pos(),
                    pos_state as int,
                ) == (LenStep::Len {
                    len: len as int,
                    model: final(self).model(),
                    rc: *final(rc),
                    pos: final(src).pos(),
                }),
                Err(e) => e == DecodeError::EndOfInput && old(self).len_steps(
                    *old(rc),
                    old(src).src(),
                    old(src).pos(),
                    pos_state as int,
                ) == LenStep::Exhausted,
            },
    {
        let mut choice = self.choice;
        let first = match rc.decode_bit(src, &mut choice) {
            Ok(b) => b,
            Err(e) => {
                self.choice = choice;
                return Err(e);
            },
        };
        self.choice = choice;
        if !first {
            let sym = match rc.bit_tree(src, &mut self.low, pos_state * 8, 8) {
                Ok(s) => s,
                Err(e) => {
                    return Err(e);
                },
            };
            return Ok(2 + sym - 8);
        }
        let mut choice2 = self.choice2;
        let second = match rc.decode_bit(src, &mut choice2) {
            Ok(b) => b,
            Err(e) => {
                self.choice2 = choice2;
                return Err(e);
            },
        };
        self.choice2 = choice2;
        if !second {
            let sym = match rc.bit_tree(src, &mut self.mid, pos_state * 8, 8) {
                Ok(s) => s,
                Err(e) => {
                    return Err(e);
                },
            };
            return Ok(10 + sym - 8);
        }
        let sym = match rc.bit_tree(src, &mut self.high, 0, 256) {
            Ok(s) => s,
            Err(e) => {
                return Err(e);
            },
        };
        Ok(18 + sym - 256)
    }
}

} // verus!
