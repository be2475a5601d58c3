//! The 12-valued LZMA state, tracking the kinds of the most recent symbols.
//!
//! The first seven states mean the latest symbol was a literal; the other
//! five mean it was a match, a long repeat, or a short repeat. Transitions
//! are total functions fixed by the LZMA specification.

use vstd::prelude::*;

verus! {

/// The decoder state: a compressed history of the last two or three events.
#[derive(Debug, Clone, Copy, PartialEq, Eq, Structural)]
pub enum LzmaState {
    LitLit,
    MatchLitLit,
    RepLitLit,
    ShortrepLitLit,
    MatchLit,
    RepLit,
    ShortrepLit,
    LitMatch,
    LitLongrep,
    LitShortrep,
    NonlitMatch,
    NonlitRep,
}

/// The index of a state in the probability tables.
pub open spec fn state_index_spec(s: LzmaState) -> int {
    match s {
        LzmaState::LitLit => 0,
        LzmaState::MatchLitLit => 1,
        LzmaState::RepLitLit => 2,
        LzmaState::ShortrepLitLit => 3,
        LzmaState::MatchLit => 4,
        LzmaState::RepLit => 5,
        LzmaState::ShortrepLit => 6,
        LzmaState::LitMatch => 7,
        LzmaState::LitLongrep => 8,
        LzmaState::LitShortrep => 9,
        LzmaState::NonlitMatch => 10,
        LzmaState::NonlitRep => 11,
    }
}

/// Whether the latest symbol of a state was a literal.
pub open spec fn is_literal_spec(s: LzmaState) -> bool {
    state_index_spec(s) < 7
}

/// The state after decoding a literal.
pub open spec fn after_literal(s: LzmaState) -> LzmaState {
    match s {
        LzmaState::LitLit => LzmaState::LitLit,
        LzmaState::MatchLitLit => LzmaState::LitLit,
        LzmaState::RepLitLit => LzmaState::LitLit,
        LzmaState::ShortrepLitLit => LzmaState::LitLit,
        LzmaState::MatchLit => LzmaState::MatchLitLit,
        LzmaState::RepLit => LzmaState::RepLitLit,
        LzmaState::ShortrepLit => LzmaState::ShortrepLitLit,
        LzmaState::LitMatch => LzmaState::MatchLit,
        LzmaState::LitLongrep => LzmaState::RepLit,
        LzmaState::LitShortrep => LzmaState::ShortrepLit,
        LzmaState::NonlitMatch => LzmaState::MatchLit,
        LzmaState::NonlitRep => LzmaState::RepLit,
    }
}

/// The state after decoding a new match.
pub open spec fn after_match(s: LzmaState) -> LzmaState {
    if is_literal_spec(s) {
        LzmaState::LitMatch
    } else {
        LzmaState::NonlitMatch
    }
}

/// The state after decoding a long repeat.
pub open spec fn after_long_rep(s: LzmaState) -> LzmaState {
    if is_literal_spec(s) {
        LzmaState::LitLongrep
    } else {
        LzmaState::NonlitRep
    }
}

/// The state after decoding a short repeat.
pub open spec fn after_short_rep(s: LzmaState) -> LzmaState {
    if is_literal_spec(s) {
        LzmaState::LitShortrep
    } else {
        LzmaState::NonlitRep
    }
}

impl LzmaState {
    /// The index of this state in the probability tables.
    pub fn index(&self) -> (r: usize)
        ensures
            r == state_index_spec(*self),
            r < 12,
    {
        match self {
            LzmaState::LitLit => 0,
            LzmaState::MatchLitLit => 1,
            LzmaState::RepLitLit => 2,
            LzmaState::ShortrepLitLit => 3,
            LzmaState::MatchLit => 4,
            LzmaState::RepLit => 5,
            LzmaState::ShortrepLit => 6,
            LzmaState::LitMatch => 7,
            LzmaState::LitLongrep => 8,
            LzmaState::LitShortrep => 9,
            LzmaState::NonlitMatch => 10,
            LzmaState::NonlitRep => 11,
        }
    }

    /// Whether the latest symbol was a literal.
    pub fn is_literal(&self) -> (r: bool)
        ensures
            r == is_literal_spec(*self),
    {
        self.index() < 7
    }

    /// Record that a literal was decoded.
    pub fn state_literal(&mut self)
        ensures
            *final(self) == after_literal(*old(self)),
    {
        *self = match self {
            LzmaState::LitLit => LzmaState::LitLit,
            LzmaState::MatchLitLit => LzmaState::LitLit,
            LzmaState::RepLitLit => LzmaState::LitLit,
            LzmaState::ShortrepLitLit => LzmaState::LitLit,
            LzmaState::MatchLit => LzmaState::MatchLitLit,
            LzmaState::RepLit => LzmaState::RepLitLit,
            LzmaState::ShortrepLit => LzmaState::ShortrepLitLit,
            LzmaState::LitMatch => LzmaState::MatchLit,
            LzmaState::LitLongrep => LzmaState::RepLit,
            LzmaState::LitShortrep => LzmaState::ShortrepLit,
            LzmaState::NonlitMatch => LzmaState::MatchLit,
            LzmaState::NonlitRep => LzmaState::RepLit,
        };
    }

    /// Record that a new match was decoded.
    pub fn state_match(&mut self)
        ensures
            *final(self) == after_match(*old(self)),
    {
        *self = if self.is_literal() {
            LzmaState::LitMatch
        } else {
            LzmaState::NonlitMatch
        };
    }

    /// Record that a long repeat was decoded.
    pub fn state_long_rep(&mut self)
        ensures
            *final(self) == after_long_rep(*old(self)),
    {
        *self = if self.is_literal() {
            LzmaState::LitLongrep
        } else {
            LzmaState::NonlitRep
        };
    }

    /// Record that a short repeat was decoded.
    pub fn state_short_rep(&mut self)
        ensures
            *final(self) == after_short_rep(*old(self)),
    {
        *self = if self.is_literal() {
            LzmaState::LitShortrep
        } else {
            LzmaState::NonlitRep
        };
    }
}

} // verus!
