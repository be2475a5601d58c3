//! The LZMA2 chunk layer: control bytes, sizes, and reset directives.
//!
//! A block body is a run of chunks. A zero control byte ends the run; 1 and
//! 2 introduce stored chunks; bytes of 128 and above introduce compressed
//! chunks whose top bits carry the uncompressed size and a reset mode.

use vstd::prelude::*;

use crate::dict::Dict;
use crate::error::DecodeError;
use crate::error::Lzma2DecodeError;
use crate::lzma_decoder::reset_lzma_model;
use crate::lzma_decoder::run_steps;
use crate::lzma_decoder::seq_extends;
use crate::lzma_decoder::LzmaDecoder;
use crate::lzma_decoder::LzmaModel;
use crate::lzma_decoder::RunStep;
use crate::lzma_state::LzmaState;
use crate::reader::be32_of;
use crate::range_decoder::RangeDecoder;
use crate::reader::be16_of;
use crate::reader::RecordedReader;

verus! {

/// The LZMA engine with its dictionary and range coder, fed by chunks.
pub struct Lzma2Decoder {
    lzma_dec: LzmaDecoder,
    dict: Dict,
    rc: RangeDecoder,
}

impl Lzma2Decoder {
    pub closed spec fn wf(self) -> bool {
        &&& self.lzma_dec.wf()
        &&& self.dict.wf()
    }

    /// The plaintext decoded so far.
    pub closed spec fn plaintext(self) -> Seq<u8> {
        self.dict.view()
    }

    /// Where the dictionary window begins: repeats reach no further back.
    pub closed spec fn window_base(self) -> int {
        self.dict.base()
    }

    /// The literal-context bits currently in force.
    pub closed spec fn lc_spec(self) -> u32 {
        self.lzma_dec.lc_spec()
    }

    /// The literal-position mask currently in force.
    pub closed spec fn lp_mask_spec(self) -> usize {
        self.lzma_dec.lp_mask_spec()
    }

    /// The position-state mask currently in force.
    pub closed spec fn pb_mask_spec(self) -> usize {
        self.lzma_dec.pb_mask_spec()
    }

    /// The engine's adaptive model.
    pub closed spec fn engine_model(self) -> LzmaModel {
        self.lzma_dec.model()
    }

    /// The engine's 12-valued state.
    pub closed spec fn engine_state(self) -> LzmaState {
        self.lzma_dec.state_spec()
    }

    /// The engine's four most recent distances.
    pub closed spec fn engine_reps(self) -> (u32, u32, u32, u32) {
        self.lzma_dec.reps_spec()
    }

    /// The engine's range decoder.
    pub closed spec fn engine_rc(self) -> RangeDecoder {
        self.rc
    }

    /// The declared dictionary size bounding every match distance.
    pub closed spec fn dict_max(self) -> u32 {
        self.dict.max_spec()
    }

    /// What a compressed chunk at `p0` of `s` decodes to: after the resets
    /// the control byte asks for, the symbol decoder runs over the
    /// range-coded payload until the declared uncompressed size is reached.
    pub closed spec fn compressed_chunk_run(self, control: u8, s: Seq<u8>, p0: int) -> RunStep {
        let mode = control as int / 32 % 4;
        let hdr = if mode >= 2 {
            5int
        } else {
            4int
        };
        let dsize = (control as int % 32) * 0x1_0000 + be16_of(s.skip(p0)) + 1;
        let props = s[p0 + 4];
        let lcr = if mode >= 2 {
            ((props as int % 45) % 9) as u32
        } else {
            self.lc_spec()
        };
        let lpr = if mode >= 2 {
            (((1usize << (((props as int % 45) / 9) as usize)) - 1) as usize)
        } else {
            self.lp_mask_spec()
        };
        let pbr = if mode >= 2 {
            (((1usize << ((props as int / 45) as usize)) - 1) as usize)
        } else {
            self.pb_mask_spec()
        };
        let model0 = if mode >= 1 {
            reset_lzma_model()
        } else {
            self.engine_model()
        };
        let state0 = if mode >= 1 {
            LzmaState::LitLit
        } else {
            self.engine_state()
        };
        let reps0 = if mode >= 1 {
            (0u32, 0u32, 0u32, 0u32)
        } else {
            self.engine_reps()
        };
        let base0 = if mode == 3 {
            self.plaintext().len() as int
        } else {
            self.window_base()
        };
        let rc0 = RangeDecoder { range: u32::MAX, code: be32_of(s.skip(p0 + hdr + 1)) as u32 };
        run_steps(
            lcr,
            lpr,
            pbr,
            model0,
            state0,
            reps0,
            self.plaintext(),
            base0,
            self.dict_max(),
            rc0,
            s,
            p0 + hdr + 5,
            self.plaintext().len() + dsize,
            dsize as nat,
        )
    }

    pub fn new(dict_size: u32) -> (r: Self)
        ensures
            r.wf(),
            r.plaintext() == Seq::<u8>::empty(),
    {
        Lzma2Decoder {
            lzma_dec: LzmaDecoder::new(),
            dict: Dict::new(dict_size),
            rc: RangeDecoder::new(),
        }
    }

    /// Decode chunks until the end-of-stream control byte.
    pub fn decode(&mut self, src: &mut RecordedReader) -> (r: Result<(), DecodeError>)
        requires
            old(src).wf(),
            old(self).wf(),
        ensures
            final(src).wf(),
            final(src).src() == old(src).src(),
            final(src).mark() == old(src).mark(),
            final(src).pos() >= old(src).pos(),
            final(self).wf(),
            seq_extends(final(self).plaintext(), old(self).plaintext()),
            old(src).pos() == old(src).src().len() ==> r == Result::<(), DecodeError>::Err(
                DecodeError::EndOfInput,
            ),
            (old(src).pos() < old(src).src().len() && old(src).src()[old(src).pos()] == 0) ==> r
                == Result::<(), DecodeError>::Ok(()) && final(src).pos() == old(src).pos() + 1
                && final(self).plaintext() == old(self).plaintext(),
            (old(src).pos() < old(src).src().len() && 3 <= old(src).src()[old(src).pos()] < 0x80)
                ==> r == Result::<(), DecodeError>::Err(
                DecodeError::LzmaError(Lzma2DecodeError::InvalidControlByte),
            ),
            r == Result::<(), DecodeError>::Err(
                DecodeError::LzmaError(Lzma2DecodeError::InvalidControlByte),
            ) ==> final(src).pos() > old(src).pos() && 3 <= final(src).src()[final(src).pos()
                - 1] < 0x80,
            r is Ok ==> final(src).pos() > old(src).pos() && final(src).src()[final(src).pos()
                - 1] == 0,
            match r {
                Ok(()) => true,
                Err(e) => {
                    ||| e == DecodeError::EndOfInput
                    ||| e == DecodeError::LzmaError(Lzma2DecodeError::InvalidControlByte)
                    ||| e == DecodeError::LzmaError(Lzma2DecodeError::InvalidProperties)
                    ||| e == DecodeError::LzmaError(Lzma2DecodeError::InvalidDistance)
                    ||| e == DecodeError::LzmaError(Lzma2DecodeError::TooLarge)
                    ||| e == DecodeError::LzmaError(Lzma2DecodeError::DecompressedSizeMismatch)
                    ||| e == DecodeError::LzmaError(Lzma2DecodeError::CompressedSizeMismatch)
                },
            },
    {
        loop
            invariant
                src.wf(),
                src.src() == old(src).src(),
                src.mark() == old(src).mark(),
                src.pos() >= old(src).pos(),
                src.pos() > old(src).pos() ==> old(src).pos() < src.src().len() && src.src()[old(
                    src,
                ).pos()] != 0 && !(3 <= src.src()[old(src).pos()] < 0x80),
                src.pos() == old(src).pos() ==> self.plaintext() == old(self).plaintext(),
                self.wf(),
                seq_extends(self.plaintext(), old(self).plaintext()),
            decreases src.src().len() - src.pos(),
        {
            let ghost ghost_mid = self.plaintext();
            let control = match src.read_u8() {
                Ok(b) => b,
                Err(e) => {
                    return Err(e);
                },
            };
            if control == 0 {
                return Ok(());
            } else if control == 1 {
                match self.decode_uncompressed(src, true) {
                    Ok(()) => (),
                    Err(e) => {
                        return Err(e);
                    },
                }
            } else if control == 2 {
                match self.decode_uncompressed(src, false) {
                    Ok(()) => (),
                    Err(e) => {
                        return Err(e);
                    },
                }
            } else if control >= 0x80 {
                match self.decode_compressed(src, control) {
                    Ok(()) => (),
                    Err(e) => {
                        return Err(e);
                    },
                }
            } else {
                return Err(DecodeError::LzmaError(Lzma2DecodeError::InvalidControlByte));
            }
            proof {
                lemma_extends_trans(self.plaintext(), ghost_mid, old(self).plaintext());
            }
        }
    }

    /// A stored chunk: a big-endian size minus one, then that many bytes
    /// copied straight into the dictionary.
    fn decode_uncompressed(&mut self, src: &mut RecordedReader, reset_dict: bool) -> (r: Result<
        (),
        DecodeError,
    >)
        requires
            old(src).wf(),
            old(self).wf(),
        ensures
            final(src).wf(),
            final(src).src() == old(src).src(),
            final(src).mark() == old(src).mark(),
            final(src).pos() >= old(src).pos(),
            final(self).wf(),
            seq_extends(final(self).plaintext(), old(self).plaintext()),
            match r {
                Ok(()) => {
                    let u = be16_of(old(src).src().skip(old(src).pos()));
                    &&& old(src).pos() + 3 + u <= old(src).src().len()
                    &&& final(self).plaintext() == old(self).plaintext() + old(
                        src,
                    ).src().subrange(old(src).pos() + 2, old(src).pos() + 3 + u)
                    &&& final(src).pos() == old(src).pos() + 3 + u
                    &&& final(self).window_base() == (if reset_dict {
                        old(self).plaintext().len() as int
                    } else {
                        old(self).window_base()
                    })
                },
                Err(e) => {
                    &&& e == DecodeError::EndOfInput
                    &&& old(src).pos() + 3 + be16_of(old(src).src().skip(old(src).pos())) > old(
                        src,
                    ).src().len()
                    &&& final(self).plaintext() == old(self).plaintext()
                },
            },
    {
        let size16 = match src.read_be_u16() {
            Ok(v) => v,
            Err(e) => {
                return Err(e);
            },
        };
        let size = size16 as usize + 1;
        if reset_dict {
            self.dict.reset();
        }
        let buf = match src.read_bytes(size) {
            Ok(v) => v,
            Err(e) => {
                return Err(e);
            },
        };
        self.dict.extend(&buf);
        Ok(())
    }

    /// A compressed chunk: sizes and reset mode from the control byte and
    /// four size bytes, an optional properties byte, then a range-coded
    /// payload that must decode to exactly the declared uncompressed size.
    fn decode_compressed(&mut self, src: &mut RecordedReader, control: u8) -> (r: Result<
        (),
        DecodeError,
    >)
        requires
            old(src).wf(),
            old(self).wf(),
            control >= 0x80,
        ensures
            final(src).wf(),
            final(src).src() == old(src).src(),
            final(src).mark() == old(src).mark(),
            final(src).pos() >= old(src).pos(),
            final(self).wf(),
            seq_extends(final(self).plaintext(), old(self).plaintext()),
            match r {
                Ok(()) => {
                    &&& final(self).plaintext().len() == old(self).plaintext().len() + (control
                        as int % 32) * 0x1_0000 + be16_of(old(src).src().skip(old(src).pos())) + 1
                    &&& final(self).window_base() == (if control as int / 32 % 4 == 3 {
                        old(self).plaintext().len() as int
                    } else {
                        old(self).window_base()
                    })
                    &&& final(src).pos() == old(src).pos() + (if control as int / 32 % 4 >= 2 {
                        5int
                    } else {
                        4int
                    }) + be16_of(old(src).src().skip(old(src).pos() + 2)) + 1
                    &&& (if control as int / 32 % 4 >= 2 {
                        let props = old(src).src()[old(src).pos() + 4];
                        &&& crate::lzma_decoder::props_valid(props)
                        &&& final(self).lc_spec() == (props as int % 45) % 9
                        &&& final(self).lp_mask_spec() == (((1usize << (((props as int % 45) / 9)
                            as usize)) - 1) as usize)
                        &&& final(self).pb_mask_spec() == (((1usize << ((props as int / 45)
                            as usize)) - 1) as usize)
                    } else {
                        &&& final(self).lc_spec() == old(self).lc_spec()
                        &&& final(self).lp_mask_spec() == old(self).lp_mask_spec()
                        &&& final(self).pb_mask_spec() == old(self).pb_mask_spec()
                    })
                    &&& old(self).compressed_chunk_run(control, old(src).src(), old(src).pos())
                        == (RunStep::Done {
                        dictv: final(self).plaintext(),
                        state: final(self).engine_state(),
                        reps: final(self).engine_reps(),
                        model: final(self).engine_model(),
                        rc: final(self).engine_rc(),
                        pos: final(src).pos(),
                    })
                },
                Err(e) => {
                    &&& {
                        ||| e == DecodeError::EndOfInput
                        ||| e == DecodeError::LzmaError(Lzma2DecodeError::InvalidProperties)
                        ||| e == DecodeError::LzmaError(Lzma2DecodeError::InvalidDistance)
                        ||| e == DecodeError::LzmaError(Lzma2DecodeError::TooLarge)
                        ||| e == DecodeError::LzmaError(Lzma2DecodeError::DecompressedSizeMismatch)
                        ||| e == DecodeError::LzmaError(Lzma2DecodeError::CompressedSizeMismatch)
                    }
                    &&& (e == DecodeError::EndOfInput ==> old(src).pos() + (if control as int / 32
                        % 4 >= 2 {
                        5int
                    } else {
                        4int
                    }) + 5 > old(src).src().len() || old(self).compressed_chunk_run(
                        control,
                        old(src).src(),
                        old(src).pos(),
                    ) == RunStep::Exhausted)
                    &&& (e == DecodeError::LzmaError(Lzma2DecodeError::InvalidDistance) ==> old(
                        self,
                    ).compressed_chunk_run(control, old(src).src(), old(src).pos())
                        == RunStep::BadDist)
                    &&& (e == DecodeError::LzmaError(Lzma2DecodeError::DecompressedSizeMismatch)
                        ==> old(self).compressed_chunk_run(control, old(src).src(), old(src).pos())
                        is Done)
                    &&& (e == DecodeError::LzmaError(Lzma2DecodeError::CompressedSizeMismatch)
                        ==> old(self).compressed_chunk_run(control, old(src).src(), old(src).pos())
                        is Done)
                },
            },
    {
        // Bits 5 and 6 of the control byte pick what is reset before the
        // chunk; bits 0..=4 are the top bits of the uncompressed size.
        let mode = (control as usize / 32) % 4;
        let reset_dict = mode == 3;
        let reset_props = mode >= 2;
        let reset_state = mode >= 1;
        let size_hi = (control as usize) % 32;
        let size16 = match src.read_be_u16() {
            Ok(v) => v,
            Err(e) => {
                return Err(e);
            },
        };
        let dsize = size_hi * 0x1_0000 + size16 as usize + 1;
        let csize16 = match src.read_be_u16() {
            Ok(v) => v,
            Err(e) => {
                return Err(e);
            },
        };
        let csize = csize16 as usize + 1;
        if reset_dict {
            self.dict.reset();
        }
        if reset_state {
            if reset_props {
                let props = match src.read_u8() {
                    Ok(b) => b,
                    Err(e) => {
                        return Err(e);
                    },
                };
                match self.lzma_dec.set_props(props) {
                    Ok(()) => (),
                    Err(e) => {
                        return Err(e);
                    },
                }
            }
            self.lzma_dec.reset_state();
        }
        let ghost base0 = self.window_base();
        let ghost lc0 = self.lc_spec();
        let ghost lpm0 = self.lp_mask_spec();
        let ghost pbm0 = self.pb_mask_spec();
        let ghost model0g = self.engine_model();
        let ghost state0g = self.engine_state();
        let ghost reps0g = self.engine_reps();
        let ghost maxg = self.dict_max();
        proof {
            assert(base0 == (if control as int / 32 % 4 == 3 {
                old(self).plaintext().len() as int
            } else {
                old(self).window_base()
            }));
            if mode >= 1 {
                self.lzma_dec.lemma_reset_model();
            }
        }
        let payload_start = src.position();
        match self.rc.initialize(src) {
            Ok(()) => (),
            Err(e) => {
                return Err(e);
            },
        }
        let ghost rc0g = self.rc;
        let ghost p0run = src.pos();
        if self.dict.len() > usize::MAX - dsize {
            return Err(DecodeError::LzmaError(Lzma2DecodeError::TooLarge));
        }
        let target = self.dict.len() + dsize;
        let ghost chunk_run0 = old(self).compressed_chunk_run(
            control,
            old(src).src(),
            old(src).pos(),
        );
        proof {
            let s_in = old(src).src();
            let p0 = old(src).pos();
            let hdrg: int = if mode >= 2 {
                5
            } else {
                4
            };
            assert(payload_start == p0 + hdrg);
            assert(be32_of(s_in.skip(p0 + hdrg + 1)) <= 0xFFFF_FFFF);
            assert(rc0g == (RangeDecoder {
                range: u32::MAX,
                code: be32_of(s_in.skip(p0 + hdrg + 1)) as u32,
            }));
            assert(p0run == p0 + hdrg + 5);
            assert(target == old(self).plaintext().len() + (control as int % 32) * 0x1_0000
                + be16_of(s_in.skip(p0)) + 1);
            assert(chunk_run0 == run_steps(
                lc0,
                lpm0,
                pbm0,
                model0g,
                state0g,
                reps0g,
                old(self).plaintext(),
                base0,
                maxg,
                rc0g,
                s_in,
                p0run,
                target as int,
                dsize as nat,
            ));
        }
        let ghost mut it: nat = 0;
        while self.dict.len() < target
            invariant
                src.wf(),
                src.src() == old(src).src(),
                src.mark() == old(src).mark(),
                src.pos() >= old(src).pos(),
                src.pos() >= payload_start as int,
                self.wf(),
                self.rc.range >= 0x80_0000,
                self.window_base() == base0,
                self.lc_spec() == lc0,
                self.lp_mask_spec() == lpm0,
                self.pb_mask_spec() == pbm0,
                self.dict_max() == maxg,
                seq_extends(self.plaintext(), old(self).plaintext()),
                it <= self.plaintext().len() - old(self).plaintext().len(),
                target == old(self).plaintext().len() + dsize,
                chunk_run0 == old(self).compressed_chunk_run(
                    control,
                    old(src).src(),
                    old(src).pos(),
                ),
                chunk_run0 == run_steps(
                    lc0,
                    lpm0,
                    pbm0,
                    self.engine_model(),
                    self.engine_state(),
                    self.engine_reps(),
                    self.plaintext(),
                    base0,
                    maxg,
                    self.rc,
                    old(src).src(),
                    src.pos(),
                    target as int,
                    (dsize - it) as nat,
                ),
            decreases
                    (if self.dict.view().len() < target {
                        target - self.dict.view().len()
                    } else {
                        0
                    }),
        {
            let ghost mid = self.plaintext();
            let ghost pre_model = self.engine_model();
            let ghost pre_state = self.engine_state();
            let ghost pre_reps = self.engine_reps();
            let ghost pre_rc = self.rc;
            let ghost pre_pos = src.pos();
            let ghost pre_it = it;
            proof {
                assert(it < dsize);
            }
            match self.lzma_dec.decode(&mut self.dict, &mut self.rc, src) {
                Ok(()) => (),
                Err(e) => {
                    proof {
                        assert(run_steps(
                            lc0,
                            lpm0,
                            pbm0,
                            pre_model,
                            pre_state,
                            pre_reps,
                            mid,
                            base0,
                            maxg,
                            pre_rc,
                            old(src).src(),
                            pre_pos,
                            target as int,
                            (dsize - pre_it) as nat,
                        ) == (if e == DecodeError::EndOfInput {
                            RunStep::Exhausted
                        } else {
                            RunStep::BadDist
                        }));
                    }
                    return Err(e);
                },
            }
            proof {
                it = it + 1;
                assert(run_steps(
                    lc0,
                    lpm0,
                    pbm0,
                    pre_model,
                    pre_state,
                    pre_reps,
                    mid,
                    base0,
                    maxg,
                    pre_rc,
                    old(src).src(),
                    pre_pos,
                    target as int,
                    (dsize - pre_it) as nat,
                ) == run_steps(
                    lc0,
                    lpm0,
                    pbm0,
                    self.engine_model(),
                    self.engine_state(),
                    self.engine_reps(),
                    self.plaintext(),
                    base0,
                    maxg,
                    self.rc,
                    old(src).src(),
                    src.pos(),
                    target as int,
                    (dsize - it) as nat,
                ));
                lemma_extends_trans(self.plaintext(), mid, old(self).plaintext());
            }
        }
        proof {
            assert(chunk_run0 == (RunStep::Done {
                dictv: self.plaintext(),
                state: self.engine_state(),
                reps: self.engine_reps(),
                model: self.engine_model(),
                rc: self.rc,
                pos: src.pos(),
            }));
        }
        if self.dict.len() != target {
            return Err(DecodeError::LzmaError(Lzma2DecodeError::DecompressedSizeMismatch));
        }
        let used = src.position() - payload_start;
        if used != csize {
            return Err(DecodeError::LzmaError(Lzma2DecodeError::CompressedSizeMismatch));
        }
        Ok(())
    }

    /// Append the whole decoded plaintext to `out`.
    pub fn extend_into(&self, out: &mut Vec<u8>)
        ensures
            final(out)@ == old(out)@ + self.plaintext(),
    {
        self.dict.extend_into(out);
    }
}

/// One chunk of LZMA2 extends the plaintext; chains of chunks still extend
/// the original.
proof fn lemma_extends_trans(c: Seq<u8>, b: Seq<u8>, a: Seq<u8>)
    requires
        seq_extends(c, b),
        seq_extends(b, a),
    ensures
        seq_extends(c, a),
{
    assert(c.take(a.len() as int) =~= b.take(a.len() as int));
}

/// Decode one LZMA2 stream from `src`, appending the plaintext to `output`.
pub fn decode_lzma2(src: &mut RecordedReader, output: &mut Vec<u8>, dict_size: u32) -> (r: Result<
    (),
    DecodeError,
>)
    requires
        old(src).wf(),
    ensures
        final(src).wf(),
        final(src).src() == old(src).src(),
        final(src).mark() == old(src).mark(),
        final(src).pos() >= old(src).pos(),
        old(src).pos() == old(src).src().len() ==> r == Result::<(), DecodeError>::Err(
            DecodeError::EndOfInput,
        ),
        (old(src).pos() < old(src).src().len() && old(src).src()[old(src).pos()] == 0) ==> r
            == Result::<(), DecodeError>::Ok(()) && final(src).pos() == old(src).pos() + 1
            && final(output)@ == old(output)@,
        (old(src).pos() < old(src).src().len() && 3 <= old(src).src()[old(src).pos()] < 0x80) ==> r
            == Result::<(), DecodeError>::Err(
            DecodeError::LzmaError(Lzma2DecodeError::InvalidControlByte),
        ),
        r is Ok ==> final(src).pos() > old(src).pos() && final(src).src()[final(src).pos() - 1]
            == 0,
        match r {
            Ok(()) => seq_extends(final(output)@, old(output)@),
            Err(e) => final(output)@ == old(output)@ && (e == DecodeError::EndOfInput || e
                == DecodeError::LzmaError(Lzma2DecodeError::InvalidControlByte) || e
                == DecodeError::LzmaError(Lzma2DecodeError::InvalidProperties) || e
                == DecodeError::LzmaError(Lzma2DecodeError::InvalidDistance) || e
                == DecodeError::LzmaError(Lzma2DecodeError::TooLarge) || e
                == DecodeError::LzmaError(Lzma2DecodeError::DecompressedSizeMismatch) || e
                == DecodeError::LzmaError(Lzma2DecodeError::CompressedSizeMismatch)),
        },
{
    let mut decoder = Lzma2Decoder::new(dict_size);
    match decoder.decode(src) {
        Ok(()) => {
            decoder.extend_into(output);
            proof {
                if decoder.plaintext().len() == 0 {
                    assert(old(output)@ + decoder.plaintext() =~= old(output)@);
                }
            }
            Ok(())
        },
        Err(e) => Err(e),
    }
}

} // verus!
