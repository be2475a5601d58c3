//! The LZMA symbol decoder: literals, matches, and repeats.
//!
//! Holds every adaptive probability table, the four most recent match
//! distances, and the 12-valued state. One call to `decode` consumes one
//! symbol from the range coder and appends its bytes to the dictionary.

use vstd::prelude::*;

use crate::dict::repeat_ext;
use crate::dict::Dict;
use crate::error::DecodeError;
use crate::error::Lzma2DecodeError;
use crate::len_decoder::filled_probs;
use crate::len_decoder::LenDecoder;
use crate::len_decoder::len_steps_m;
use crate::len_decoder::LenStep;
use crate::lzma_state::after_literal;
use crate::lzma_state::after_long_rep;
use crate::lzma_state::after_match;
use crate::lzma_state::after_short_rep;
use crate::lzma_state::is_literal_spec;
use crate::lzma_state::state_index_spec;
use crate::lzma_state::LzmaState;
use crate::range_decoder::bit_step;
use crate::range_decoder::direct_steps;
use crate::range_decoder::pow2_int;
use crate::range_decoder::BitStep;
use crate::range_decoder::probs_wf;
use crate::range_decoder::rev_tree_steps;
use crate::range_decoder::tree_steps;
use crate::range_decoder::DirectStep;
use crate::range_decoder::RangeDecoder;
use crate::range_decoder::TreeStep;
use crate::reader::RecordedReader;

verus! {

/// One level of a literal tree walk: in the matched phase the next model
/// index also depends on the corresponding bit of the match byte, and the
/// walk drops out of that phase as soon as the decoded bit disagrees.
pub open spec fn lit_walk(
    rc: RangeDecoder,
    lits: Seq<u16>,
    base: int,
    mb: int,
    sym: int,
    in_match: bool,
    s: Seq<u8>,
    pos: int,
) -> TreeStep
    decreases
            (if 1 <= sym < 0x100 {
                0x100 - sym
            } else {
                0
            }),
{
    if sym < 1 || sym >= 0x100 {
        TreeStep::Sym { sym, rc, probs: lits, pos }
    } else {
        let match_bit = mb / 128;
        let idx = if in_match {
            base + (1 + match_bit) * 256 + sym
        } else {
            base + sym
        };
        match bit_step(rc, lits[idx], s, pos) {
            BitStep::Bit { bit, rc: rc2, prob: p2, pos: pos2 } => lit_walk(
                rc2,
                lits.update(idx, p2),
                base,
                (mb % 128) * 2,
                2 * sym + (if bit {
                    1int
                } else {
                    0int
                }),
                in_match && match_bit == (if bit {
                    1int
                } else {
                    0int
                }),
                s,
                pos2,
            ),
            BitStep::Exhausted => TreeStep::Exhausted,
        }
    }
}

/// Outside the matched phase, the literal walk is a plain tree walk.
pub proof fn lemma_lit_walk_plain(
    rc: RangeDecoder,
    lits: Seq<u16>,
    base: int,
    mb: int,
    sym: int,
    s: Seq<u8>,
    pos: int,
)
    ensures
        lit_walk(rc, lits, base, mb, sym, false, s, pos) == tree_steps(
            rc,
            lits,
            base,
            0x100,
            s,
            pos,
            sym,
        ),
    decreases
            (if 1 <= sym < 0x100 {
                0x100 - sym
            } else {
                0
            }),
{
    if 1 <= sym < 0x100 {
        match bit_step(rc, lits[base + sym], s, pos) {
            BitStep::Bit { bit, rc: rc2, prob: p2, pos: pos2 } => {
                lemma_lit_walk_plain(
                    rc2,
                    lits.update(base + sym, p2),
                    base,
                    (mb % 128) * 2,
                    2 * sym + (if bit {
                        1int
                    } else {
                        0int
                    }),
                    s,
                    pos2,
                );
            },
            BitStep::Exhausted => {},
        }
    }
}

/// What decoding one literal yields at the specification level.
pub enum LitStep {
    /// The byte with the literal models, range decoder and input cursor
    /// after the decode.
    Lit { byte: u8, lits: Seq<u16>, rc: RangeDecoder, pos: int },
    /// Some bit ran out of input.
    Exhausted,
    /// The match byte lies outside the dictionary window.
    BadDist,
}

/// What decoding one match distance yields at the specification level.
pub enum DistStep {
    /// The stored distance (the real distance minus one) with the three
    /// distance models, range decoder and input cursor after the decode.
    Dist { dist: int, model: (Seq<u16>, Seq<u16>, Seq<u16>), rc: RangeDecoder, pos: int },
    /// Some bit ran out of input.
    Exhausted,
}

/// The full adaptive model of the symbol decoder as plain values: the six
/// decision arrays, the literal coders, the two length decoders, and the
/// three distance models.
pub type LzmaModel = (
    Seq<u16>,
    Seq<u16>,
    Seq<u16>,
    Seq<u16>,
    Seq<u16>,
    Seq<u16>,
    Seq<u16>,
    (u16, u16, Seq<u16>, Seq<u16>, Seq<u16>),
    (u16, u16, Seq<u16>, Seq<u16>, Seq<u16>),
    (Seq<u16>, Seq<u16>, Seq<u16>),
);

/// What decoding one LZMA symbol yields at the specification level.
pub enum SymbolStep {
    /// The dictionary, state, distances, adaptive model, range decoder
    /// and input cursor after the symbol.
    Sym {
        dictv: Seq<u8>,
        state: LzmaState,
        reps: (u32, u32, u32, u32),
        model: LzmaModel,
        rc: RangeDecoder,
        pos: int,
    },
    /// Some bit ran out of input.
    Exhausted,
    /// A distance reached outside the dictionary window.
    BadDist,
}

/// The specification of `decode_literal` over plain values: pick the
/// literal coder from the previous byte and the position, then walk eight
/// bits; when the previous symbol was not a literal the walk starts in
/// the matched phase against the byte one past the most recent distance
/// back.
pub open spec fn literal_steps_m(
    lc: u32,
    lp_mask: usize,
    lits: Seq<u16>,
    state: LzmaState,
    rep0: u32,
    dictv: Seq<u8>,
    dictbase: int,
    dictmax: u32,
    rc: RangeDecoder,
    s: Seq<u8>,
    pos: int,
) -> LitStep {
    let avail = dictv.len() - dictbase;
    let prevv: usize = if avail > 0 {
        dictv.last() as usize
    } else {
        0
    };
    let lit_state = (prevv >> ((8 - lc) as usize)) as int + ((dictv.len() as usize) & lp_mask)
        * pow2_mask(lc);
    let base = lit_state * 0x300;
    if is_literal_spec(state) {
        match lit_walk(rc, lits, base, 0, 1, false, s, pos) {
            TreeStep::Sym { sym, rc: rc2, probs: lits2, pos: p2 } => LitStep::Lit {
                byte: (sym - 0x100) as u8,
                lits: lits2,
                rc: rc2,
                pos: p2,
            },
            TreeStep::Exhausted => LitStep::Exhausted,
        }
    } else {
        if rep0 as int >= avail || rep0 >= dictmax {
            LitStep::BadDist
        } else {
            let mb = dictv[dictv.len() - 1 - rep0];
            match lit_walk(rc, lits, base, mb as int, 1, true, s, pos) {
                TreeStep::Sym { sym, rc: rc2, probs: lits2, pos: p2 } => LitStep::Lit {
                    byte: (sym - 0x100) as u8,
                    lits: lits2,
                    rc: rc2,
                    pos: p2,
                },
                TreeStep::Exhausted => LitStep::Exhausted,
            }
        }
    }
}

/// The specification of `decode_distance` over the plain distance models:
/// a six-bit slot per distance state; slots below four are the distance;
/// otherwise the slot fixes the two top bits and the bit count below
/// them, which come from the special trees for slots below 14 and from
/// equiprobable bits plus the aligned tree from 14 on.
pub open spec fn distance_steps_m(
    dists: (Seq<u16>, Seq<u16>, Seq<u16>),
    rc: RangeDecoder,
    s: Seq<u8>,
    pos: int,
    len: int,
) -> DistStep {
    let dist_state = if len < 6 {
        len - 2
    } else {
        3
    };
    match tree_steps(rc, dists.0, dist_state * 64, 64, s, pos, 1) {
        TreeStep::Sym { sym, rc: rc1, probs: slots1, pos: p1 } => {
            let slot = sym - 64;
            if slot < 4 {
                DistStep::Dist { dist: slot, model: (slots1, dists.1, dists.2), rc: rc1, pos: p1 }
            } else {
                let limit = slot / 2 - 1;
                let base_val = (2 + slot % 2) * pow2_int(limit);
                if slot < 14 {
                    match rev_tree_steps(rc1, dists.1, base_val - slot, s, p1, 1, base_val, 1, limit) {
                        TreeStep::Sym { sym: d, rc: rc2, probs: special2, pos: p2 } => (
                        DistStep::Dist {
                            dist: d,
                            model: (slots1, special2, dists.2),
                            rc: rc2,
                            pos: p2,
                        }),
                        TreeStep::Exhausted => DistStep::Exhausted,
                    }
                } else {
                    match direct_steps(rc1, s, p1, 2 + slot % 2, limit - 4) {
                        DirectStep::Val { v: d1, rc: rc2, pos: p2 } => {
                            match rev_tree_steps(rc2, dists.2, 1, s, p2, 1, d1 * 16, 1, 4) {
                                TreeStep::Sym { sym: d, rc: rc3, probs: align2, pos: p3 } => (
                                DistStep::Dist {
                                    dist: d,
                                    model: (slots1, dists.1, align2),
                                    rc: rc3,
                                    pos: p3,
                                }),
                                TreeStep::Exhausted => DistStep::Exhausted,
                            }
                        },
                        DirectStep::Exhausted => DistStep::Exhausted,
                    }
                }
            }
        },
        TreeStep::Exhausted => DistStep::Exhausted,
    }
}

/// The tail shared by every repeat, over plain values: a length from the
/// repeat-length decoder, then `len` bytes copied from `dist0 + 1` back.
pub open spec fn rep_tail_m(
    state: LzmaState,
    lits: Seq<u16>,
    mlen: (u16, u16, Seq<u16>, Seq<u16>, Seq<u16>),
    rlen: (u16, u16, Seq<u16>, Seq<u16>, Seq<u16>),
    dists: (Seq<u16>, Seq<u16>, Seq<u16>),
    dictv: Seq<u8>,
    dictbase: int,
    dictmax: u32,
    dist0: u32,
    reps2: (u32, u32, u32, u32),
    im1: Seq<u16>,
    ir1: Seq<u16>,
    ir0x: Seq<u16>,
    ir1x: Seq<u16>,
    ir2x: Seq<u16>,
    ir0lx: Seq<u16>,
    rc: RangeDecoder,
    s: Seq<u8>,
    pos: int,
    ps: int,
) -> SymbolStep {
    match len_steps_m(rlen, rc, s, pos, ps) {
        LenStep::Len { len, model: rlen2, rc: rc2, pos: p2 } => {
            if dist0 as int >= dictv.len() - dictbase || dist0 >= dictmax {
                SymbolStep::BadDist
            } else {
                SymbolStep::Sym {
                    dictv: repeat_ext(dictv, dist0 as int + 1, len),
                    state: after_long_rep(state),
                    reps: reps2,
                    model: (im1, ir1, ir0x, ir1x, ir2x, ir0lx, lits, mlen, rlen2, dists),
                    rc: rc2,
                    pos: p2,
                }
            }
        },
        LenStep::Exhausted => SymbolStep::Exhausted,
    }
}

/// The specification of `decode` over plain values: one `is_match`
/// decision selects a
/// literal or a match; a match is fresh (new length and distance) or
/// repeats one of the four remembered distances, with a short repeat
/// copying a single byte at the most recent one.
#[verifier::opaque]
pub open spec fn symbol_steps_m(
lc: u32,
lp_mask: usize,
pb_mask: usize,
model: LzmaModel,
state: LzmaState,
reps: (u32, u32, u32, u32),
dictv: Seq<u8>,
dictbase: int,
dictmax: u32,
rc: RangeDecoder,
s: Seq<u8>,
pos: int,
) -> SymbolStep {
    let ps = ((dictv.len() as usize) & pb_mask) as int;
    let st = state_index_spec(state);
    match bit_step(rc, model.0[st * 16 + ps], s, pos) {
        BitStep::Exhausted => SymbolStep::Exhausted,
        BitStep::Bit { bit: is_match_b, rc: rc1, prob: pm, pos: p1 } => {
            let im1 = model.0.update(st * 16 + ps, pm);
            if !is_match_b {
                match literal_steps_m(lc, lp_mask, model.6, state, reps.0, dictv, dictbase, dictmax, rc1, s, p1) {
                    LitStep::Lit { byte, lits, rc: rc2, pos: p2 } => SymbolStep::Sym {
                        dictv: dictv.push(byte),
                        state: after_literal(state),
                        reps: (reps.0, reps.1, reps.2, reps.3),
                        model: (
                            im1,
                            model.1,
                            model.2,
                            model.3,
                            model.4,
                            model.5,
                            lits,
                            model.7,
                            model.8,
                            model.9,
                        ),
                        rc: rc2,
                        pos: p2,
                    },
                    LitStep::Exhausted => SymbolStep::Exhausted,
                    LitStep::BadDist => SymbolStep::BadDist,
                }
            } else {
                match bit_step(rc1, model.1[st], s, p1) {
                    BitStep::Exhausted => SymbolStep::Exhausted,
                    BitStep::Bit { bit: is_rep_b, rc: rc2, prob: pr, pos: p2 } => {
                        let ir1 = model.1.update(st, pr);
                        if !is_rep_b {
                            match len_steps_m(model.7, rc2, s, p2, ps) {
                                LenStep::Exhausted => SymbolStep::Exhausted,
                                LenStep::Len { len, model: mlen2, rc: rc3, pos: p3 } => {
                                    match distance_steps_m(model.9, rc3, s, p3, len) {
                                        DistStep::Exhausted => SymbolStep::Exhausted,
                                        DistStep::Dist {
                                            dist,
                                            model: dists2,
                                            rc: rc4,
                                            pos: p4,
                                        } => {
                                            if dist >= dictv.len() - dictbase || dist
                                                >= dictmax as int {
                                                SymbolStep::BadDist
                                            } else {
                                                SymbolStep::Sym {
                                                    dictv: repeat_ext(dictv, dist + 1, len),
                                                    state: after_match(state),
                                                    reps: (
                                                        dist as u32,
                                                        reps.0,
                                                        reps.1,
                                                        reps.2,
                                                    ),
                                                    model: (
                                                        im1,
                                                        ir1,
                                                        model.2,
                                                        model.3,
                                                        model.4,
                                                        model.5,
                                                        model.6,
                                                        mlen2,
                                                        model.8,
                                                        dists2,
                                                    ),
                                                    rc: rc4,
                                                    pos: p4,
                                                }
                                            }
                                        },
                                    }
                                },
                            }
                        } else {
                            match bit_step(rc2, model.2[st], s, p2) {
                                BitStep::Exhausted => SymbolStep::Exhausted,
                                BitStep::Bit { bit: r0_b, rc: rc3, prob: p0v, pos: p3 } => {
                                    let ir0x = model.2.update(st, p0v);
                                    if !r0_b {
                                        match bit_step(
                                            rc3,
                                            model.5[st * 16 + ps],
                                            s,
                                            p3,
                                        ) {
                                            BitStep::Exhausted => SymbolStep::Exhausted,
                                            BitStep::Bit {
                                                bit: long_b,
                                                rc: rc4,
                                                prob: plv,
                                                pos: p4,
                                            } => {
                                                let ir0lx = model.5.update(
                                                    st * 16 + ps,
                                                    plv,
                                                );
                                                if !long_b {
                                                    if reps.0 as int >= dictv.len()
                                                        - dictbase || reps.0 >= dictmax {
                                                        SymbolStep::BadDist
                                                    } else {
                                                        SymbolStep::Sym {
                                                            dictv: dictv.push(
                                                                dictv[dictv.len() - 1
                                                                    - reps.0],
                                                            ),
                                                            state: after_short_rep(state),
                                                            reps: (
                                                                reps.0,
                                                                reps.1,
                                                                reps.2,
                                                                reps.3,
                                                            ),
                                                            model: (
                                                                im1,
                                                                ir1,
                                                                ir0x,
                                                                model.3,
                                                                model.4,
                                                                ir0lx,
                                                                model.6,
                                                                model.7,
                                                                model.8,
                                                                model.9,
                                                            ),
                                                            rc: rc4,
                                                            pos: p4,
                                                        }
                                                    }
                                                } else {
                                                    rep_tail_m(state, model.6, model.7, model.8, model.9, 
                                                        dictv,
                                                        dictbase,
                                                        dictmax,
                                                        reps.0,
                                                        (
                                                            reps.0,
                                                            reps.1,
                                                            reps.2,
                                                            reps.3,
                                                        ),
                                                        im1,
                                                        ir1,
                                                        ir0x,
                                                        model.3,
                                                        model.4,
                                                        ir0lx,
                                                        rc4,
                                                        s,
                                                        p4,
                                                        ps,
                                                    )
                                                }
                                            },
                                        }
                                    } else {
                                        match bit_step(rc3, model.3[st], s, p3) {
                                            BitStep::Exhausted => SymbolStep::Exhausted,
                                            BitStep::Bit {
                                                bit: r1_b,
                                                rc: rc4,
                                                prob: p1v,
                                                pos: p4,
                                            } => {
                                                let ir1x = model.3.update(st, p1v);
                                                if !r1_b {
                                                    rep_tail_m(state, model.6, model.7, model.8, model.9, 
                                                        dictv,
                                                        dictbase,
                                                        dictmax,
                                                        reps.1,
                                                        (
                                                            reps.1,
                                                            reps.0,
                                                            reps.2,
                                                            reps.3,
                                                        ),
                                                        im1,
                                                        ir1,
                                                        ir0x,
                                                        ir1x,
                                                        model.4,
                                                        model.5,
                                                        rc4,
                                                        s,
                                                        p4,
                                                        ps,
                                                    )
                                                } else {
                                                    match bit_step(
                                                        rc4,
                                                        model.4[st],
                                                        s,
                                                        p4,
                                                    ) {
                                                        BitStep::Exhausted => (
                                                        SymbolStep::Exhausted),
                                                        BitStep::Bit {
                                                            bit: r2_b,
                                                            rc: rc5,
                                                            prob: p2v,
                                                            pos: p5,
                                                        } => {
                                                            let ir2x = model.4.update(
                                                                st,
                                                                p2v,
                                                            );
                                                            if !r2_b {
                                                                rep_tail_m(state, model.6, model.7, model.8, model.9, 
                                                                    dictv,
                                                                    dictbase,
                                                                    dictmax,
                                                                    reps.2,
                                                                    (
                                                                        reps.2,
                                                                        reps.0,
                                                                        reps.1,
                                                                        reps.3,
                                                                    ),
                                                                    im1,
                                                                    ir1,
                                                                    ir0x,
                                                                    ir1x,
                                                                    ir2x,
                                                                    model.5,
                                                                    rc5,
                                                                    s,
                                                                    p5,
                                                                    ps,
                                                                )
                                                            } else {
                                                                rep_tail_m(state, model.6, model.7, model.8, model.9, 
                                                                    dictv,
                                                                    dictbase,
                                                                    dictmax,
                                                                    reps.3,
                                                                    (
                                                                        reps.3,
                                                                        reps.0,
                                                                        reps.1,
                                                                        reps.2,
                                                                    ),
                                                                    im1,
                                                                    ir1,
                                                                    ir0x,
                                                                    ir1x,
                                                                    ir2x,
                                                                    model.5,
                                                                    rc5,
                                                                    s,
                                                                    p5,
                                                                    ps,
                                                                )
                                                            }
                                                        },
                                                    }
                                                }
                                            },
                                        }
                                    }
                                },
                            }
                        }
                    },
                }
            }
        },
    }
}

/// What iterating the symbol decoder yields at the specification level.
pub enum RunStep {
    /// The dictionary reached the target, with everything after the last
    /// symbol.
    Done {
        dictv: Seq<u8>,
        state: LzmaState,
        reps: (u32, u32, u32, u32),
        model: LzmaModel,
        rc: RangeDecoder,
        pos: int,
    },
    /// Some bit ran out of input.
    Exhausted,
    /// A distance reached outside the dictionary window.
    BadDist,
    /// The fuel ran out first; unreachable when the fuel covers the
    /// missing bytes, since every symbol grows the dictionary.
    Stuck,
}

/// Iterate the symbol decoder until the dictionary holds `target` bytes.
pub open spec fn run_steps(
    lc: u32,
    lp_mask: usize,
    pb_mask: usize,
    model: LzmaModel,
    state: LzmaState,
    reps: (u32, u32, u32, u32),
    dictv: Seq<u8>,
    dictbase: int,
    dictmax: u32,
    rc: RangeDecoder,
    s: Seq<u8>,
    pos: int,
    target: int,
    fuel: nat,
) -> RunStep
    decreases fuel,
{
    if dictv.len() >= target {
        RunStep::Done { dictv, state, reps, model, rc, pos }
    } else if fuel == 0 {
        RunStep::Stuck
    } else {
        match symbol_steps_m(
            lc,
            lp_mask,
            pb_mask,
            model,
            state,
            reps,
            dictv,
            dictbase,
            dictmax,
            rc,
            s,
            pos,
        ) {
            SymbolStep::Sym { dictv: d2, state: st2, reps: r2, model: m2, rc: rc2, pos: p2 } => (
            run_steps(
                lc,
                lp_mask,
                pb_mask,
                m2,
                st2,
                r2,
                d2,
                dictbase,
                dictmax,
                rc2,
                s,
                p2,
                target,
                (fuel - 1) as nat,
            )),
            SymbolStep::Exhausted => RunStep::Exhausted,
            SymbolStep::BadDist => RunStep::BadDist,
        }
    }
}

/// The model of a freshly reset symbol decoder: every probability at the
/// default.
pub open spec fn reset_lzma_model() -> LzmaModel {
    (
        Seq::new(192, |i: int| 0x400u16),
        Seq::new(12, |i: int| 0x400u16),
        Seq::new(12, |i: int| 0x400u16),
        Seq::new(12, |i: int| 0x400u16),
        Seq::new(12, |i: int| 0x400u16),
        Seq::new(192, |i: int| 0x400u16),
        Seq::new(12288, |i: int| 0x400u16),
        crate::len_decoder::reset_len_model(),
        crate::len_decoder::reset_len_model(),
        (
            Seq::new(256, |i: int| 0x400u16),
            Seq::new(114, |i: int| 0x400u16),
            Seq::new(16, |i: int| 0x400u16),
        ),
    )
}

/// Whether a properties byte encodes a valid `lc`/`lp`/`pb` triple: the
/// byte must stay below 225 and the literal bits must satisfy
/// `lc + lp <= 4`.
pub open spec fn props_valid(b: u8) -> bool {
    &&& b <= 224
    &&& (b as int % 45) % 9 + (b as int % 45) / 9 <= 4
}

/// `old` extended at the end only.
pub open spec fn seq_extends(new: Seq<u8>, old: Seq<u8>) -> bool {
    &&& new.len() >= old.len()
    &&& forall|i: int| 0 <= i < old.len() ==> new[i] == old[i]
}

proof fn lemma_lit_state_bound(prev: usize, x: usize, lc: u32, lp: u32, lpm: usize)
    requires
        prev < 256,
        lc <= 4,
        lp <= 4,
        lc + lp <= 4,
        lpm == (((1usize << (lp as usize)) - 1) as usize),
    ensures
        (prev >> ((8 - lc) as usize)) + ((x & lpm) * pow2_mask(lc)) < 16,
        (x & lpm) <= 15,
{
    assert((prev < 256 && lc <= 4 && lp <= 4 && lc + lp <= 4 && lpm == (((1usize << (lp
        as usize)) - 1) as usize)) ==> ((prev >> ((8 - lc) as usize)) + ((x & lpm) * (
    if lc == 0 {
        1usize
    } else if lc == 1 {
        2usize
    } else if lc == 2 {
        4usize
    } else if lc == 3 {
        8usize
    } else {
        16usize
    })) < 16 && (x & lpm) <= 15)) by (bit_vector);
}

/// The literal-context multiplier `2^lc`, for `lc <= 4`.
pub open spec fn pow2_mask(lc: u32) -> usize {
    if lc == 0 {
        1usize
    } else if lc == 1 {
        2usize
    } else if lc == 2 {
        4usize
    } else if lc == 3 {
        8usize
    } else {
        16usize
    }
}

proof fn lemma_masked_le(x: usize, m: usize)
    ensures
        x & m <= m,
{
    assert(x & m <= m) by (bit_vector);
}

proof fn lemma_mask_small(bits: u32, m: usize)
    requires
        bits <= 4,
        m == (((1usize << (bits as usize)) - 1) as usize),
    ensures
        m <= 15,
{
    assert(bits <= 4 ==> (((1usize << (bits as usize)) - 1) as usize) <= 15) by (bit_vector);
}

/// The LZMA symbol decoder state and probability models.
pub struct LzmaDecoder {
    /// Number of literal context bits.
    lc_bits: u32,
    /// Mask from the literal position bits: `(1 << lp) - 1`.
    lp_mask: usize,
    /// Mask from the number position bits: `(1 << pb) - 1`.
    pb_mask: usize,
    lp_bits: Ghost<u32>,
    pb_bits: Ghost<u32>,
    /// Whether the next symbol is a match, per state and position state.
    is_match: Vec<u16>,
    /// Whether a match repeats one of the last four distances.
    is_rep: Vec<u16>,
    /// Whether the repeated distance is the most recent one.
    is_rep0: Vec<u16>,
    /// Whether the repeated distance is the second most recent.
    is_rep1: Vec<u16>,
    /// Whether the repeated distance is the third, else the fourth.
    is_rep2: Vec<u16>,
    /// Whether a most-recent-distance repeat is longer than one byte.
    is_rep0_long: Vec<u16>,
    /// The distance-slot trees, one per distance state.
    dist_slot: Vec<u16>,
    /// Extra distance bits for distances 4..=127.
    dist_special: Vec<u16>,
    /// The low four distance bits for distances of 128 and more.
    dist_align: Vec<u16>,
    /// The literal coders, three ranges of 256 entries each.
    literal: Vec<u16>,
    /// The most recent four match distances, most recent first, each
    /// stored as the distance minus one.
    rep0: u32,
    rep1: u32,
    rep2: u32,
    rep3: u32,
    /// The 12-valued history of recent symbol kinds.
    state: LzmaState,
    /// Lengths of fresh matches.
    match_len_dec: LenDecoder,
    /// Lengths of repeated matches.
    rep_len_dec: LenDecoder,
}

impl LzmaDecoder {
    pub closed spec fn wf(self) -> bool {
        &&& self.lc_bits <= 4
        &&& self.lp_bits@ <= 4
        &&& self.lc_bits + self.lp_bits@ <= 4
        &&& self.pb_bits@ <= 4
        &&& self.lp_mask == (((1usize << (self.lp_bits@ as usize)) - 1) as usize)
        &&& self.pb_mask == (((1usize << (self.pb_bits@ as usize)) - 1) as usize)
        &&& self.is_match.len() == 192
        &&& self.is_rep.len() == 12
        &&& self.is_rep0.len() == 12
        &&& self.is_rep1.len() == 12
        &&& self.is_rep2.len() == 12
        &&& self.is_rep0_long.len() == 192
        &&& self.dist_slot.len() == 256
        &&& self.dist_special.len() == 114
        &&& self.dist_align.len() == 16
        &&& self.literal.len() == 12288
        &&& probs_wf(self.is_match@)
        &&& probs_wf(self.is_rep@)
        &&& probs_wf(self.is_rep0@)
        &&& probs_wf(self.is_rep1@)
        &&& probs_wf(self.is_rep2@)
        &&& probs_wf(self.is_rep0_long@)
        &&& probs_wf(self.dist_slot@)
        &&& probs_wf(self.dist_special@)
        &&& probs_wf(self.dist_align@)
        &&& probs_wf(self.literal@)
        &&& self.match_len_dec.wf()
        &&& self.rep_len_dec.wf()
    }

    /// The number of literal context bits currently in force.
    pub closed spec fn lc_spec(self) -> u32 {
        self.lc_bits
    }

    /// The literal-position mask currently in force.
    pub closed spec fn lp_mask_spec(self) -> usize {
        self.lp_mask
    }

    /// The position-state mask currently in force.
    pub closed spec fn pb_mask_spec(self) -> usize {
        self.pb_mask
    }

    /// The most recent match distance, stored minus one.
    pub closed spec fn rep0_spec(self) -> u32 {
        self.rep0
    }

    /// The other three recent distances, stored minus one.
    pub closed spec fn reps_spec(self) -> (u32, u32, u32, u32) {
        (self.rep0, self.rep1, self.rep2, self.rep3)
    }

    /// The current 12-valued state.
    pub closed spec fn state_spec(self) -> LzmaState {
        self.state
    }

    /// The two decoders hold identical probability models and length
    /// decoders: nothing adaptive differs.
    pub closed spec fn probs_eq(a: LzmaDecoder, b: LzmaDecoder) -> bool {
        &&& a.is_match@ == b.is_match@
        &&& a.is_rep@ == b.is_rep@
        &&& a.is_rep0@ == b.is_rep0@
        &&& a.is_rep1@ == b.is_rep1@
        &&& a.is_rep2@ == b.is_rep2@
        &&& a.is_rep0_long@ == b.is_rep0_long@
        &&& a.dist_slot@ == b.dist_slot@
        &&& a.dist_special@ == b.dist_special@
        &&& a.dist_align@ == b.dist_align@
        &&& a.literal@ == b.literal@
        &&& a.match_len_dec == b.match_len_dec
        &&& a.rep_len_dec == b.rep_len_dec
    }

    /// All probabilities at the default, distances zeroed, state initial.
    pub closed spec fn is_reset(self) -> bool {
        &&& (forall|i: int| 0 <= i < 192 ==> self.is_match[i] == 0x400)
        &&& (forall|i: int| 0 <= i < 12 ==> self.is_rep[i] == 0x400)
        &&& (forall|i: int| 0 <= i < 12 ==> self.is_rep0[i] == 0x400)
        &&& (forall|i: int| 0 <= i < 12 ==> self.is_rep1[i] == 0x400)
        &&& (forall|i: int| 0 <= i < 12 ==> self.is_rep2[i] == 0x400)
        &&& (forall|i: int| 0 <= i < 192 ==> self.is_rep0_long[i] == 0x400)
        &&& (forall|i: int| 0 <= i < 256 ==> self.dist_slot[i] == 0x400)
        &&& (forall|i: int| 0 <= i < 114 ==> self.dist_special[i] == 0x400)
        &&& (forall|i: int| 0 <= i < 16 ==> self.dist_align[i] == 0x400)
        &&& (forall|i: int| 0 <= i < 12288 ==> self.literal[i] == 0x400)
        &&& self.rep0 == 0 && self.rep1 == 0 && self.rep2 == 0 && self.rep3 == 0
        &&& self.state == LzmaState::LitLit
        &&& self.match_len_dec.is_reset()
        &&& self.rep_len_dec.is_reset()
    }

    /// A reset decoder's model is the reset model, its state the initial
    /// state, and its distances zero.
    pub proof fn lemma_reset_model(self)
        requires
            self.wf(),
            self.is_reset(),
        ensures
            self.model() == reset_lzma_model(),
            self.state_spec() == LzmaState::LitLit,
            self.reps_spec() == (0u32, 0u32, 0u32, 0u32),
    {
        assert(self.model().0 =~= reset_lzma_model().0);
        assert(self.model().1 =~= reset_lzma_model().1);
        assert(self.model().2 =~= reset_lzma_model().2);
        assert(self.model().3 =~= reset_lzma_model().3);
        assert(self.model().4 =~= reset_lzma_model().4);
        assert(self.model().5 =~= reset_lzma_model().5);
        assert(self.model().6 =~= reset_lzma_model().6);
        self.match_len_dec.lemma_reset_model();
        self.rep_len_dec.lemma_reset_model();
        assert(self.model().9.0 =~= reset_lzma_model().9.0);
        assert(self.model().9.1 =~= reset_lzma_model().9.1);
        assert(self.model().9.2 =~= reset_lzma_model().9.2);
    }

    pub fn new() -> (r: Self)
        ensures
            r.wf(),
            r.is_reset(),
            r.lc_spec() == 0,
            r.lp_mask_spec() == 0,
            r.pb_mask_spec() == 0,
    {
        let r = LzmaDecoder {
            lc_bits: 0,
            lp_mask: 0,
            pb_mask: 0,
            lp_bits: Ghost(0),
            pb_bits: Ghost(0),
            is_match: filled_probs(192),
            is_rep: filled_probs(12),
            is_rep0: filled_probs(12),
            is_rep1: filled_probs(12),
            is_rep2: filled_probs(12),
            is_rep0_long: filled_probs(192),
            dist_slot: filled_probs(256),
            dist_special: filled_probs(114),
            dist_align: filled_probs(16),
            literal: filled_probs(12288),
            rep0: 0,
            rep1: 0,
            rep2: 0,
            rep3: 0,
            state: LzmaState::LitLit,
            match_len_dec: LenDecoder::new(),
            rep_len_dec: LenDecoder::new(),
        };
        proof {
            assert((((1usize << 0usize) - 1) as usize) == 0) by (bit_vector);
        }
        r
    }

    /// Return every probability, distance and state to its initial value;
    /// the properties stay in force.
    pub fn reset_state(&mut self)
        requires
            old(self).wf(),
        ensures
            final(self).wf(),
            final(self).is_reset(),
            final(self).lc_spec() == old(self).lc_spec(),
            final(self).lp_mask_spec() == old(self).lp_mask_spec(),
            final(self).pb_mask_spec() == old(self).pb_mask_spec(),
    {
        self.is_match = filled_probs(192);
        self.is_rep = filled_probs(12);
        self.is_rep0 = filled_probs(12);
        self.is_rep1 = filled_probs(12);
        self.is_rep2 = filled_probs(12);
        self.is_rep0_long = filled_probs(192);
        self.dist_slot = filled_probs(256);
        self.dist_special = filled_probs(114);
        self.dist_align = filled_probs(16);
        self.literal = filled_probs(12288);
        self.rep0 = 0;
        self.rep1 = 0;
        self.rep2 = 0;
        self.rep3 = 0;
        self.state = LzmaState::LitLit;
        self.match_len_dec.reset();
        self.rep_len_dec.reset();
    }

    /// Install the `lc`/`lp`/`pb` triple from a properties byte; a byte
    /// above 224 or literal bits with `lc + lp > 4` are rejected.
    pub fn set_props(&mut self, props: u8) -> (r: Result<(), DecodeError>)
        requires
            old(self).wf(),
        ensures
            final(self).wf(),
            final(self).state_spec() == old(self).state_spec(),
            final(self).reps_spec() == old(self).reps_spec(),
            Self::probs_eq(*final(self), *old(self)),
            match r {
                Ok(()) => {
                    &&& props_valid(props)
                    &&& final(self).lc_spec() == (props as int % 45) % 9
                    &&& final(self).lp_mask_spec() == (((1usize << (((props as int % 45) / 9)
                        as usize)) - 1) as usize)
                    &&& final(self).pb_mask_spec() == (((1usize << ((props as int / 45) as usize))
                        - 1) as usize)
                },
                Err(e) => {
                    &&& e == DecodeError::LzmaError(Lzma2DecodeError::InvalidProperties)
                    &&& !props_valid(props)
                    &&& *final(self) == *old(self)
                },
            },
    {
        if props > 224 {
            return Err(DecodeError::LzmaError(Lzma2DecodeError::InvalidProperties));
        }
        let pb = props / 45;
        let rem = props % 45;
        let lp = rem / 9;
        let lc = rem % 9;
        if lc + lp > 4 {
            return Err(DecodeError::LzmaError(Lzma2DecodeError::InvalidProperties));
        }
        proof {
            assert(lp <= 4 ==> (1usize << (lp as usize)) >= 1 && (((1usize << (lp as usize))
                - 1) as usize) <= 15) by (bit_vector);
            assert(pb <= 4 ==> (1usize << (pb as usize)) >= 1) by (bit_vector);
        }
        self.pb_mask = (1usize << (pb as usize)) - 1;
        self.lp_mask = (1usize << (lp as usize)) - 1;
        self.lc_bits = lc as u32;
        self.lp_bits = Ghost(lp as u32);
        self.pb_bits = Ghost(pb as u32);
        Ok(())
    }

    /// Decode one literal byte and append it to the dictionary.
    fn decode_literal(
        &mut self,
        dict: &mut Dict,
        rc: &mut RangeDecoder,
        src: &mut RecordedReader,
    ) -> (r: Result<(), DecodeError>)
        requires
            old(src).wf(),
            old(self).wf(),
            old(dict).wf(),
            old(rc).range >= 0x80_0000,
        ensures
            final(src).wf(),
            final(src).src() == old(src).src(),
            final(src).mark() == old(src).mark(),
            final(src).pos() >= old(src).pos(),
            final(self).wf(),
            final(dict).wf(),
            final(dict).base() == old(dict).base(),
            final(dict).max_spec() == old(dict).max_spec(),
            final(self).reps_spec() == old(self).reps_spec(),
            final(self).lc_spec() == old(self).lc_spec(),
            final(self).lp_mask_spec() == old(self).lp_mask_spec(),
            final(self).pb_mask_spec() == old(self).pb_mask_spec(),
            r is Ok ==> final(rc).range >= 0x80_0000,
            match r {
                Ok(()) => {
                    &&& final(dict).view() == old(dict).view().push(final(dict).view().last())
                    &&& old(self).literal_steps(
                        old(dict).view(),
                        old(dict).base(),
                        old(dict).max_spec(),
                        *old(rc),
                        old(src).src(),
                        old(src).pos(),
                    ) == (LitStep::Lit {
                        byte: final(dict).view().last(),
                        lits: final(self).lit_model(),
                        rc: *final(rc),
                        pos: final(src).pos(),
                    })
                    &&& final(self).state_spec() == after_literal(old(self).state_spec())
                    &&& final(self).model() == (
                        old(self).model().0,
                        old(self).model().1,
                        old(self).model().2,
                        old(self).model().3,
                        old(self).model().4,
                        old(self).model().5,
                        final(self).lit_model(),
                        old(self).model().7,
                        old(self).model().8,
                        old(self).model().9,
                    )
                },
                Err(e) => {
                    &&& (e == DecodeError::EndOfInput || e == DecodeError::LzmaError(
                        Lzma2DecodeError::InvalidDistance,
                    ))
                    &&& (e == DecodeError::EndOfInput ==> old(self).literal_steps(
                        old(dict).view(),
                        old(dict).base(),
                        old(dict).max_spec(),
                        *old(rc),
                        old(src).src(),
                        old(src).pos(),
                    ) == LitStep::Exhausted)
                    &&& (e == DecodeError::LzmaError(Lzma2DecodeError::InvalidDistance) ==> old(
                        self,
                    ).literal_steps(
                        old(dict).view(),
                        old(dict).base(),
                        old(dict).max_spec(),
                        *old(rc),
                        old(src).src(),
                        old(src).pos(),
                    ) == LitStep::BadDist)
                    &&& final(dict).view() == old(dict).view()
                },
            },
    {
        let prev: usize = match dict.last() {
            Some(b) => b as usize,
            None => 0,
        };
        let ghost lp = self.lp_bits@;
        proof {
            lemma_lit_state_bound(prev, dict.view().len() as usize, self.lc_bits, lp, self.lp_mask);
        }
        let lc_factor: usize = if self.lc_bits == 0 {
            1
        } else if self.lc_bits == 1 {
            2
        } else if self.lc_bits == 2 {
            4
        } else if self.lc_bits == 3 {
            8
        } else {
            16
        };
        let lit_state = (prev >> ((8 - self.lc_bits) as usize)) + (dict.len() & self.lp_mask)
            * lc_factor;
        let lit_base = lit_state * 0x300;
        let result: usize;
        if self.state.is_literal() {
            proof {
                lemma_lit_walk_plain(
                    *old(rc),
                    old(self).lit_model(),
                    lit_base as int,
                    0,
                    1,
                    old(src).src(),
                    old(src).pos(),
                );
            }
            result = match rc.bit_tree(src, &mut self.literal, lit_base, 0x100) {
                Ok(s) => s,
                Err(e) => {
                    return Err(e);
                },
            };
        } else {
            let mb = match dict.match_byte(self.rep0) {
                Ok(b) => b,
                Err(e) => {
                    return Err(e);
                },
            };
            let mut match_byte: usize = mb as usize;
            let mut res: usize = 1;
            let mut matched = true;
            let ghost lw0 = lit_walk(
                *old(rc),
                old(self).lit_model(),
                lit_base as int,
                mb as int,
                1,
                true,
                old(src).src(),
                old(src).pos(),
            );
            proof {
                assert(old(self).literal_steps(
                    old(dict).view(),
                    old(dict).base(),
                    old(dict).max_spec(),
                    *old(rc),
                    old(src).src(),
                    old(src).pos(),
                ) == (match lw0 {
                    TreeStep::Sym { sym, rc: rc2, probs: lits2, pos: p2 } => LitStep::Lit {
                        byte: (sym - 0x100) as u8,
                        lits: lits2,
                        rc: rc2,
                        pos: p2,
                    },
                    TreeStep::Exhausted => LitStep::Exhausted,
                }));
            }
            while res < 0x100 && matched
                invariant
                    src.wf(),
                    src.src() == old(src).src(),
                    src.mark() == old(src).mark(),
                    src.pos() >= old(src).pos(),
                    self.wf(),
                    self.reps_spec() == old(self).reps_spec(),
                    self.state_spec() == old(self).state_spec(),
                    self.lc_spec() == old(self).lc_spec(),
                    self.lp_mask_spec() == old(self).lp_mask_spec(),
                    self.pb_mask_spec() == old(self).pb_mask_spec(),
                    rc.range >= 0x80_0000,
                    *dict == *old(dict),
                    dict.wf(),
                    self.model() == (
                        old(self).model().0,
                        old(self).model().1,
                        old(self).model().2,
                        old(self).model().3,
                        old(self).model().4,
                        old(self).model().5,
                        self.lit_model(),
                        old(self).model().7,
                        old(self).model().8,
                        old(self).model().9,
                    ),
                    match_byte < 256,
                    1 <= res < 0x200,
                    lit_base + 0x300 <= 12288,
                    self.literal.len() == 12288,
                    old(self).literal_steps(
                        old(dict).view(),
                        old(dict).base(),
                        old(dict).max_spec(),
                        *old(rc),
                        old(src).src(),
                        old(src).pos(),
                    ) == (match lw0 {
                        TreeStep::Sym { sym, rc: rc2, probs: lits2, pos: p2 } => LitStep::Lit {
                            byte: (sym - 0x100) as u8,
                            lits: lits2,
                            rc: rc2,
                            pos: p2,
                        },
                        TreeStep::Exhausted => LitStep::Exhausted,
                    }),
                    lw0 == lit_walk(
                        *rc,
                        self.lit_model(),
                        lit_base as int,
                        match_byte as int,
                        res as int,
                        matched,
                        old(src).src(),
                        src.pos(),
                    ),
                decreases 0x200 - res,
            {
                let ghost pre_lits = self.literal@;
                let ghost pre_rc = *rc;
                let ghost pre_pos = src.pos();
                let ghost pre_mb = match_byte as int;
                let ghost pre_res = res as int;
                let match_bit = match_byte / 128;
                match_byte = (match_byte % 128) * 2;
                let idx = lit_base + (1 + match_bit) * 256 + res;
                let mut p = self.literal[idx];
                let bit = match rc.decode_bit(src, &mut p) {
                    Ok(b) => b,
                    Err(e) => {
                        self.literal.set(idx, p);
                        proof {
                            assert(lit_walk(
                                pre_rc,
                                pre_lits,
                                lit_base as int,
                                pre_mb,
                                pre_res,
                                true,
                                old(src).src(),
                                pre_pos,
                            ) == TreeStep::Exhausted);
                        }
                        return Err(e);
                    },
                };
                self.literal.set(idx, p);
                proof {
                    assert(self.literal@ =~= pre_lits.update(idx as int, p));
                }
                let bitv: usize = if bit {
                    1
                } else {
                    0
                };
                res = res * 2 + bitv;
                if match_bit != bitv {
                    matched = false;
                }
            }
            proof {
                if res < 0x100 {
                    lemma_lit_walk_plain(
                        *rc,
                        self.lit_model(),
                        lit_base as int,
                        match_byte as int,
                        res as int,
                        old(src).src(),
                        src.pos(),
                    );
                }
            }
            while res < 0x100
                invariant
                    src.wf(),
                    src.src() == old(src).src(),
                    src.mark() == old(src).mark(),
                    src.pos() >= old(src).pos(),
                    self.wf(),
                    self.reps_spec() == old(self).reps_spec(),
                    self.state_spec() == old(self).state_spec(),
                    self.lc_spec() == old(self).lc_spec(),
                    self.lp_mask_spec() == old(self).lp_mask_spec(),
                    self.pb_mask_spec() == old(self).pb_mask_spec(),
                    rc.range >= 0x80_0000,
                    *dict == *old(dict),
                    dict.wf(),
                    self.model() == (
                        old(self).model().0,
                        old(self).model().1,
                        old(self).model().2,
                        old(self).model().3,
                        old(self).model().4,
                        old(self).model().5,
                        self.lit_model(),
                        old(self).model().7,
                        old(self).model().8,
                        old(self).model().9,
                    ),
                    1 <= res < 0x200,
                    lit_base + 0x300 <= 12288,
                    self.literal.len() == 12288,
                    old(self).literal_steps(
                        old(dict).view(),
                        old(dict).base(),
                        old(dict).max_spec(),
                        *old(rc),
                        old(src).src(),
                        old(src).pos(),
                    ) == (match lw0 {
                        TreeStep::Sym { sym, rc: rc2, probs: lits2, pos: p2 } => LitStep::Lit {
                            byte: (sym - 0x100) as u8,
                            lits: lits2,
                            rc: rc2,
                            pos: p2,
                        },
                        TreeStep::Exhausted => LitStep::Exhausted,
                    }),
                    lw0 == tree_steps(
                        *rc,
                        self.lit_model(),
                        lit_base as int,
                        0x100,
                        old(src).src(),
                        src.pos(),
                        res as int,
                    ),
                decreases 0x200 - res,
            {
                let ghost pre_lits = self.literal@;
                let ghost pre_rc = *rc;
                let ghost pre_pos = src.pos();
                let ghost pre_res = res as int;
                let idx = lit_base + res;
                let mut p = self.literal[idx];
                let bit = match rc.decode_bit(src, &mut p) {
                    Ok(b) => b,
                    Err(e) => {
                        self.literal.set(idx, p);
                        proof {
                            assert(tree_steps(
                                pre_rc,
                                pre_lits,
                                lit_base as int,
                                0x100,
                                old(src).src(),
                                pre_pos,
                                pre_res,
                            ) == TreeStep::Exhausted);
                        }
                        return Err(e);
                    },
                };
                self.literal.set(idx, p);
                proof {
                    assert(self.literal@ =~= pre_lits.update(idx as int, p));
                }
                res = res * 2 + (if bit {
                    1
                } else {
                    0
                });
            }
            result = res;
        }
        let literal = (result - 0x100) as u8;
        dict.push(literal);
        self.state.state_literal();
        Ok(())
    }

    /// Emit the single byte of a short repeat: the byte one past the most
    /// recent distance back, leaving every distance untouched.
    pub fn short_rep(&mut self, dict: &mut Dict) -> (r: Result<(), DecodeError>)
        requires
            old(self).wf(),
            old(dict).wf(),
        ensures
            final(self).wf(),
            final(dict).wf(),
            final(dict).base() == old(dict).base(),
            final(dict).max_spec() == old(dict).max_spec(),
            final(self).reps_spec() == old(self).reps_spec(),
            final(self).lc_spec() == old(self).lc_spec(),
            final(self).lp_mask_spec() == old(self).lp_mask_spec(),
            final(self).pb_mask_spec() == old(self).pb_mask_spec(),
            Self::probs_eq(*final(self), *old(self)),
            match r {
                Ok(()) => {
                    &&& (old(self).rep0_spec() as int) < old(dict).available_spec()
                    &&& old(self).rep0_spec() < old(dict).max_spec()
                    &&& final(dict).view() == old(dict).view().push(
                        old(dict).view()[old(dict).view().len() - 1 - old(self).rep0_spec()],
                    )
                    &&& final(self).state_spec() == after_short_rep(old(self).state_spec())
                },
                Err(e) => {
                    &&& e == DecodeError::LzmaError(Lzma2DecodeError::InvalidDistance)
                    &&& ((old(self).rep0_spec() as int) >= old(dict).available_spec() || old(
                        self,
                    ).rep0_spec() >= old(dict).max_spec())
                    &&& final(dict).view() == old(dict).view()
                    &&& final(self).state_spec() == old(self).state_spec()
                },
            },
    {
        match dict.repeat(1, self.rep0) {
            Ok(()) => (),
            Err(e) => {
                return Err(e);
            },
        }
        proof {
            let s = old(dict).view();
            let d = old(self).rep0_spec() as int + 1;
            assert(repeat_ext(s, d, 1) == repeat_ext(s, d, 0).push(
                repeat_ext(s, d, 0)[repeat_ext(s, d, 0).len() - d],
            ));
            assert(repeat_ext(s, d, 0) == s);
        }
        self.state.state_short_rep();
        Ok(())
    }

    /// The literal models as plain values.
    pub closed spec fn lit_model(self) -> Seq<u16> {
        self.literal@
    }

    /// The whole adaptive model as plain values.
    pub closed spec fn model(self) -> LzmaModel {
        (
            self.is_match@,
            self.is_rep@,
            self.is_rep0@,
            self.is_rep1@,
            self.is_rep2@,
            self.is_rep0_long@,
            self.literal@,
            self.match_len_dec.model(),
            self.rep_len_dec.model(),
            (self.dist_slot@, self.dist_special@, self.dist_align@),
        )
    }

    /// The tail shared by every repeat, phrased on the decoder.
    pub open spec fn rep_tail(
        self,
        dictv: Seq<u8>,
        dictbase: int,
        dictmax: u32,
        dist0: u32,
        reps2: (u32, u32, u32, u32),
        im1: Seq<u16>,
        ir1: Seq<u16>,
        ir0x: Seq<u16>,
        ir1x: Seq<u16>,
        ir2x: Seq<u16>,
        ir0lx: Seq<u16>,
        rc: RangeDecoder,
        s: Seq<u8>,
        pos: int,
        ps: int,
    ) -> SymbolStep {
        rep_tail_m(
            self.state_spec(),
            self.model().6,
            self.model().7,
            self.model().8,
            self.model().9,
            dictv,
            dictbase,
            dictmax,
            dist0,
            reps2,
            im1,
            ir1,
            ir0x,
            ir1x,
            ir2x,
            ir0lx,
            rc,
            s,
            pos,
            ps,
        )
    }

    /// The specification of `decode`, phrased on the decoder.
    pub open spec fn symbol_steps(
        self,
        dictv: Seq<u8>,
        dictbase: int,
        dictmax: u32,
        rc: RangeDecoder,
        s: Seq<u8>,
        pos: int,
    ) -> SymbolStep {
        symbol_steps_m(
            self.lc_spec(),
            self.lp_mask_spec(),
            self.pb_mask_spec(),
            self.model(),
            self.state_spec(),
            self.reps_spec(),
            dictv,
            dictbase,
            dictmax,
            rc,
            s,
            pos,
        )
    }

    /// The specification of `decode_literal`, phrased on the decoder.
    pub open spec fn literal_steps(
        self,
        dictv: Seq<u8>,
        dictbase: int,
        dictmax: u32,
        rc: RangeDecoder,
        s: Seq<u8>,
        pos: int,
    ) -> LitStep {
        literal_steps_m(
            self.lc_spec(),
            self.lp_mask_spec(),
            self.lit_model(),
            self.state_spec(),
            self.rep0_spec(),
            dictv,
            dictbase,
            dictmax,
            rc,
            s,
            pos,
        )
    }

    /// The three distance models as plain values: slot trees, the special
    /// trees, and the aligned tree.
    pub closed spec fn dist_model(self) -> (Seq<u16>, Seq<u16>, Seq<u16>) {
        (self.dist_slot@, self.dist_special@, self.dist_align@)
    }

    /// The specification of `decode_distance`, phrased on the decoder.
    pub open spec fn distance_steps(
        self,
        rc: RangeDecoder,
        s: Seq<u8>,
        pos: int,
        len: int,
    ) -> DistStep {
        distance_steps_m(self.dist_model(), rc, s, pos, len)
    }

    /// Decode the distance of a fresh match from its slot tree and the
    /// extra distance bits, and remember it as the most recent distance.
    fn decode_distance(&mut self, src: &mut RecordedReader, rc: &mut RangeDecoder, len: usize) -> (r:
        Result<u32, DecodeError>)
        requires
            old(src).wf(),
            old(self).wf(),
            2 <= len,
            old(rc).range >= 0x80_0000,
        ensures
            final(src).wf(),
            final(src).src() == old(src).src(),
            final(src).mark() == old(src).mark(),
            final(src).pos() >= old(src).pos(),
            final(self).wf(),
            r is Ok ==> final(rc).range >= 0x80_0000,
            final(self).state_spec() == old(self).state_spec(),
            final(self).lc_spec() == old(self).lc_spec(),
            final(self).lp_mask_spec() == old(self).lp_mask_spec(),
            final(self).pb_mask_spec() == old(self).pb_mask_spec(),
            match r {
                Ok(d) => {
                    &&& final(self).rep0_spec() == d
                    &&& final(self).rep1 == old(self).rep1
                    &&& final(self).rep2 == old(self).rep2
                    &&& final(self).rep3 == old(self).rep3
                    &&& old(self).distance_steps(
                        *old(rc),
                        old(src).src(),
                        old(src).pos(),
                        len as int,
                    ) == (DistStep::Dist {
                        dist: d as int,
                        model: final(self).dist_model(),
                        rc: *final(rc),
                        pos: final(src).pos(),
                    })
                    &&& final(self).model() == (
                        old(self).model().0,
                        old(self).model().1,
                        old(self).model().2,
                        old(self).model().3,
                        old(self).model().4,
                        old(self).model().5,
                        old(self).model().6,
                        old(self).model().7,
                        old(self).model().8,
                        final(self).dist_model(),
                    )
                },
                Err(e) => e == DecodeError::EndOfInput && old(self).distance_steps(
                    *old(rc),
                    old(src).src(),
                    old(src).pos(),
                    len as int,
                ) == DistStep::Exhausted,
            },
    {
        let dist_state: usize = if len < 6 {
            len - 2
        } else {
            3
        };
        let slot_sym = match rc.bit_tree(src, &mut self.dist_slot, dist_state * 64, 64) {
            Ok(s) => s,
            Err(e) => {
                return Err(e);
            },
        };
        let slot = slot_sym - 64;
        let dist: u32;
        if slot < 4 {
            dist = slot as u32;
        } else {
            // The number of extra distance bits below the two slot bits.
            let limit = slot / 2 - 1;
            if slot < 14 {
                // Distances 4..=127: the extra bits come from the special
                // probability trees, one tree per slot.
                let mult: u32 = if limit == 1 {
                    2
                } else if limit == 2 {
                    4
                } else if limit == 3 {
                    8
                } else if limit == 4 {
                    16
                } else {
                    32
                };
                let base_val: u32 = (2 + (slot as u32) % 2) * mult;
                proof {
                    crate::range_decoder::lemma_pow2_int_small();
                    assert(slot == 2 * (slot / 2) + slot % 2);
                }
                let probs_base = (base_val as usize) - slot;
                dist = match rc.bit_tree_rev(
                    src,
                    &mut self.dist_special,
                    probs_base,
                    base_val,
                    limit,
                ) {
                    Ok(d) => d,
                    Err(e) => {
                        return Err(e);
                    },
                };
            } else {
                // Distances of 128 and more: equiprobable middle bits, then
                // four aligned bits from their own tree.
                let d0: u32 = 2 + (slot as u32) % 2;
                proof {
                    crate::range_decoder::lemma_pow2_int_small();
                    lemma_direct_fits(d0 as int, (limit - 4) as int);
                }
                let d1 = match rc.direct(src, d0, limit - 4) {
                    Ok(d) => d,
                    Err(e) => {
                        return Err(e);
                    },
                };
                let d2 = d1 * 16;
                proof {
                    crate::range_decoder::lemma_pow2_int_small();
                }
                dist = match rc.bit_tree_rev(src, &mut self.dist_align, 1, d2, 4) {
                    Ok(d) => d,
                    Err(e) => {
                        return Err(e);
                    },
                };
            }
        }
        self.rep0 = dist;
        Ok(dist)
    }

    /// Decode one LZMA symbol: a literal, a fresh match, a long repeat,
    /// or a short repeat; the dictionary grows by at least one byte.
    #[verifier::rlimit(100)]
    pub fn decode(
        &mut self,
        dict: &mut Dict,
        rc: &mut RangeDecoder,
        src: &mut RecordedReader,
    ) -> (r: Result<(), DecodeError>)
        requires
            old(src).wf(),
            old(self).wf(),
            old(dict).wf(),
            old(rc).range >= 0x80_0000,
        ensures
            final(src).wf(),
            final(src).src() == old(src).src(),
            final(src).mark() == old(src).mark(),
            final(src).pos() >= old(src).pos(),
            final(self).wf(),
            final(dict).wf(),
            final(dict).base() == old(dict).base(),
            final(dict).max_spec() == old(dict).max_spec(),
            r is Ok ==> final(rc).range >= 0x80_0000,
            final(self).lc_spec() == old(self).lc_spec(),
            final(self).lp_mask_spec() == old(self).lp_mask_spec(),
            final(self).pb_mask_spec() == old(self).pb_mask_spec(),
            match r {
                Ok(()) => {
                    &&& final(dict).view().len() > old(dict).view().len()
                    &&& seq_extends(final(dict).view(), old(dict).view())
                    &&& {
                        ||| final(self).state_spec() == after_literal(old(self).state_spec())
                        ||| final(self).state_spec() == after_match(old(self).state_spec())
                        ||| final(self).state_spec() == after_long_rep(old(self).state_spec())
                        ||| final(self).state_spec() == after_short_rep(old(self).state_spec())
                    }
                    &&& symbol_steps_m(
                        old(self).lc_spec(),
                        old(self).lp_mask_spec(),
                        old(self).pb_mask_spec(),
                        old(self).model(),
                        old(self).state_spec(),
                        old(self).reps_spec(),
                        old(dict).view(),
                        old(dict).base(),
                        old(dict).max_spec(),
                        *old(rc),
                        old(src).src(),
                        old(src).pos(),
                    ) == (SymbolStep::Sym {
                        dictv: final(dict).view(),
                        state: final(self).state_spec(),
                        reps: final(self).reps_spec(),
                        model: final(self).model(),
                        rc: *final(rc),
                        pos: final(src).pos(),
                    })
                },
                Err(e) => {
                    &&& (e == DecodeError::EndOfInput || e == DecodeError::LzmaError(
                        Lzma2DecodeError::InvalidDistance,
                    ))
                    &&& (e == DecodeError::EndOfInput ==> symbol_steps_m(
                        old(self).lc_spec(),
                        old(self).lp_mask_spec(),
                        old(self).pb_mask_spec(),
                        old(self).model(),
                        old(self).state_spec(),
                        old(self).reps_spec(),
                        old(dict).view(),
                        old(dict).base(),
                        old(dict).max_spec(),
                        *old(rc),
                        old(src).src(),
                        old(src).pos(),
                    ) == SymbolStep::Exhausted)
                    &&& (e == DecodeError::LzmaError(Lzma2DecodeError::InvalidDistance)
                        ==> symbol_steps_m(
                        old(self).lc_spec(),
                        old(self).lp_mask_spec(),
                        old(self).pb_mask_spec(),
                        old(self).model(),
                        old(self).state_spec(),
                        old(self).reps_spec(),
                        old(dict).view(),
                        old(dict).base(),
                        old(dict).max_spec(),
                        *old(rc),
                        old(src).src(),
                        old(src).pos(),
                    ) == SymbolStep::BadDist)
                    &&& final(dict).view() == old(dict).view()
                },
            },
    {
        let ghost w = symbol_steps_m(
            old(self).lc_spec(),
            old(self).lp_mask_spec(),
            old(self).pb_mask_spec(),
            old(self).model(),
            old(self).state_spec(),
            old(self).reps_spec(),
            old(dict).view(),
            old(dict).base(),
            old(dict).max_spec(),
            *old(rc),
            old(src).src(),
            old(src).pos(),
        );
        let pos_state = dict.len() & self.pb_mask;
        proof {
            let ghost pb = self.pb_bits@;
            lemma_mask_small(pb, self.pb_mask);
            lemma_masked_le(dict.view().len() as usize, self.pb_mask);
        }
        let st = self.state.index();
        let mut p = self.is_match[st * 16 + pos_state];
        let is_match_bit = match rc.decode_bit(src, &mut p) {
            Ok(b) => b,
            Err(e) => {
                self.is_match.set(st * 16 + pos_state, p);
                proof {
                    assert(w == SymbolStep::Exhausted) by {
                        reveal(crate::lzma_decoder::symbol_steps_m);
                    }
                }
                return Err(e);
            },
        };
        self.is_match.set(st * 16 + pos_state, p);
        if !is_match_bit {
            proof {
                assert(self.literal_steps(
                    old(dict).view(),
                    old(dict).base(),
                    old(dict).max_spec(),
                    *rc,
                    old(src).src(),
                    src.pos(),
                ) == old(self).literal_steps(
                    old(dict).view(),
                    old(dict).base(),
                    old(dict).max_spec(),
                    *rc,
                    old(src).src(),
                    src.pos(),
                ));
            }
            let r2 = self.decode_literal(dict, rc, src);
            proof {
                match &r2 {
                    Ok(()) => {
                        assert(w == (SymbolStep::Sym {
                            dictv: dict.view(),
                            state: self.state_spec(),
                            reps: self.reps_spec(),
                            model: self.model(),
                            rc: *rc,
                            pos: src.pos(),
                        })) by {
                            reveal(crate::lzma_decoder::symbol_steps_m);
                        }
                    },
                    Err(e) => {
                        if *e == DecodeError::EndOfInput {
                            assert(w == SymbolStep::Exhausted) by {
                                reveal(crate::lzma_decoder::symbol_steps_m);
                            }
                        } else {
                            assert(w == SymbolStep::BadDist) by {
                                reveal(crate::lzma_decoder::symbol_steps_m);
                            }
                        }
                    },
                }
            }
            return r2;
        }
        let mut p = self.is_rep[st];
        let is_rep_bit = match rc.decode_bit(src, &mut p) {
            Ok(b) => b,
            Err(e) => {
                self.is_rep.set(st, p);
                proof {
                    assert(w == SymbolStep::Exhausted) by {
                        reveal(crate::lzma_decoder::symbol_steps_m);
                    }
                }
                return Err(e);
            },
        };
        self.is_rep.set(st, p);
        let len: usize;
        let dist: u32;
        if is_rep_bit {
            // The distance repeats one of the last four.
            let mut p = self.is_rep0[st];
            let rep0_bit = match rc.decode_bit(src, &mut p) {
                Ok(b) => b,
                Err(e) => {
                    self.is_rep0.set(st, p);
                    proof {
                        assert(w == SymbolStep::Exhausted) by {
                            reveal(crate::lzma_decoder::symbol_steps_m);
                        }
                    }
                    return Err(e);
                },
            };
            self.is_rep0.set(st, p);
            if !rep0_bit {
                let mut p = self.is_rep0_long[st * 16 + pos_state];
                let long_bit = match rc.decode_bit(src, &mut p) {
                    Ok(b) => b,
                    Err(e) => {
                        self.is_rep0_long.set(st * 16 + pos_state, p);
                        proof {
                            assert(w == SymbolStep::Exhausted) by {
                                reveal(crate::lzma_decoder::symbol_steps_m);
                            }
                        }
                        return Err(e);
                    },
                };
                self.is_rep0_long.set(st * 16 + pos_state, p);
                if !long_bit {
                    let r2 = self.short_rep(dict);
                    proof {
                        match &r2 {
                            Ok(()) => {
                                assert(w == (SymbolStep::Sym {
                                    dictv: dict.view(),
                                    state: self.state_spec(),
                                    reps: self.reps_spec(),
                                    model: self.model(),
                                    rc: *rc,
                                    pos: src.pos(),
                                })) by {
                                    reveal(crate::lzma_decoder::symbol_steps_m);
                                }
                            },
                            Err(e) => {
                                assert(w == SymbolStep::BadDist) by {
                                    reveal(crate::lzma_decoder::symbol_steps_m);
                                }
                            },
                        }
                    }
                    return r2;
                }
                dist = self.rep0;
            } else {
                let mut p = self.is_rep1[st];
                let rep1_bit = match rc.decode_bit(src, &mut p) {
                    Ok(b) => b,
                    Err(e) => {
                        self.is_rep1.set(st, p);
                        proof {
                            assert(w == SymbolStep::Exhausted) by {
                                reveal(crate::lzma_decoder::symbol_steps_m);
                            }
                        }
                        return Err(e);
                    },
                };
                self.is_rep1.set(st, p);
                if !rep1_bit {
                    dist = self.rep1;
                    self.rep1 = self.rep0;
                    self.rep0 = dist;
                } else {
                    let mut p = self.is_rep2[st];
                    let rep2_bit = match rc.decode_bit(src, &mut p) {
                        Ok(b) => b,
                        Err(e) => {
                            self.is_rep2.set(st, p);
                            proof {
                                assert(w == SymbolStep::Exhausted) by {
                                    reveal(crate::lzma_decoder::symbol_steps_m);
                                }
                            }
                            return Err(e);
                        },
                    };
                    self.is_rep2.set(st, p);
                    if !rep2_bit {
                        dist = self.rep2;
                    } else {
                        dist = self.rep3;
                        self.rep3 = self.rep2;
                    }
                    self.rep2 = self.rep1;
                    self.rep1 = self.rep0;
                    self.rep0 = dist;
                }
            }
            self.state.state_long_rep();
            len = match self.rep_len_dec.decode(src, rc, pos_state) {
                Ok(l) => l,
                Err(e) => {
                    proof {
                        assert(w == SymbolStep::Exhausted) by {
                            reveal(crate::lzma_decoder::symbol_steps_m);
                        }
                    }
                    return Err(e);
                },
            };
        } else {
            // A fresh match: shift the distance history down.
            self.rep3 = self.rep2;
            self.rep2 = self.rep1;
            self.rep1 = self.rep0;
            self.state.state_match();
            len = match self.match_len_dec.decode(src, rc, pos_state) {
                Ok(l) => l,
                Err(e) => {
                    proof {
                        assert(w == SymbolStep::Exhausted) by {
                            reveal(crate::lzma_decoder::symbol_steps_m);
                        }
                    }
                    return Err(e);
                },
            };
            dist = match self.decode_distance(src, rc, len) {
                Ok(d) => d,
                Err(e) => {
                    proof {
                        assert(w == SymbolStep::Exhausted) by {
                            reveal(crate::lzma_decoder::symbol_steps_m);
                        }
                    }
                    return Err(e);
                },
            };
        }
        match dict.repeat(len, dist) {
            Ok(()) => (),
            Err(e) => {
                proof {
                    assert(symbol_steps_m(
                        old(self).lc_spec(),
                        old(self).lp_mask_spec(),
                        old(self).pb_mask_spec(),
                        old(self).model(),
                        old(self).state_spec(),
                        old(self).reps_spec(),
                        old(dict).view(),
                        old(dict).base(),
                        old(dict).max_spec(),
                        *old(rc),
                        old(src).src(),
                        old(src).pos(),
                    ) == SymbolStep::BadDist) by {
                        reveal(crate::lzma_decoder::symbol_steps_m);
                        assert(dict.view() == old(dict).view());
                    }
                }
                return Err(e);  // distance outside the window
            },
        }
        proof {
            lemma_repeat_ext_extends(old(dict).view(), dist as int + 1, len as int);
            assert(symbol_steps_m(
                old(self).lc_spec(),
                old(self).lp_mask_spec(),
                old(self).pb_mask_spec(),
                old(self).model(),
                old(self).state_spec(),
                old(self).reps_spec(),
                old(dict).view(),
                old(dict).base(),
                old(dict).max_spec(),
                *old(rc),
                old(src).src(),
                old(src).pos(),
            ) == (SymbolStep::Sym {
                dictv: dict.view(),
                state: self.state_spec(),
                reps: self.reps_spec(),
                model: self.model(),
                rc: *rc,
                pos: src.pos(),
            })) by {
                reveal(crate::lzma_decoder::symbol_steps_m);
                assert(dict.view() == repeat_ext(old(dict).view(), dist as int + 1, len as int));
            }
        }
        Ok(())
    }
}

/// A slot of 14 or more leaves at most 26 direct bits, whose expansion of
/// a seed of at most 3 stays under `2^28`.
proof fn lemma_direct_fits(d0: int, count: int)
    requires
        2 <= d0 <= 3,
        1 <= count <= 26,
    ensures
        (d0 + 1) * crate::range_decoder::pow2_int(count) <= 0x1000_0000,
{
    crate::range_decoder::lemma_pow2_int_increases(count, 26);
    crate::range_decoder::lemma_pow2_int_pos(count);
    crate::range_decoder::lemma_pow2_int_small();
    assert((d0 + 1) * crate::range_decoder::pow2_int(count) <= 4 * crate::range_decoder::pow2_int(
        26,
    )) by (nonlinear_arith)
        requires
            2 <= d0 <= 3,
            0 < crate::range_decoder::pow2_int(count) <= crate::range_decoder::pow2_int(26),
    ;
}

/// Repeating only appends: the old plaintext stays a prefix.
proof fn lemma_repeat_ext_extends(s: Seq<u8>, dist: int, n: int)
    requires
        n >= 0,
    ensures
        repeat_ext(s, dist, n).len() == s.len() + n,
        seq_extends(repeat_ext(s, dist, n), s),
    decreases n,
{
    if n > 0 {
        lemma_repeat_ext_extends(s, dist, n - 1);
    }
}

} // verus!
