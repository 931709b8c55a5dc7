//! The two sides.
use vstd::prelude::*;

verus! {

#[derive(Copy, Clone, Debug, PartialEq, Eq, Structural)]
pub enum Color {
    White,
    Black,
}

impl Color {
    /// The other side.
    pub open spec fn opponent(&self) -> Color {
        match self {
            Color::White => Color::Black,
            Color::Black => Color::White,
        }
    }

    /// Index of this side in per-side tables (white 0, black 1).
    pub open spec fn spec_idx(&self) -> usize {
        match self {
            Color::White => 0,
            Color::Black => 1,
        }
    }

    /// First of this side's six piece bitboards (white 0, black 6).
    pub open spec fn spec_offset(&self) -> usize {
        match self {
            Color::White => 0,
            Color::Black => 6,
        }
    }

    #[verifier::when_used_as_spec(spec_idx)]
    pub fn idx(&self) -> (r: usize)
        ensures
            r == self.spec_idx(),
    {
        match self {
            Color::White => 0,
            Color::Black => 1,
        }
    }

    #[verifier::when_used_as_spec(spec_offset)]
    pub fn piece_bitboard_offset(&self) -> (r: usize)
        ensures
            r == self.spec_offset(),
    {
        match self {
            Color::White => 0,
            Color::Black => 6,
        }
    }

    /// Index of this side's occupancy bitboard (white 0, black 1).
    #[verifier::when_used_as_spec(spec_idx)]
    pub fn occupancy_bitboard_index(&self) -> (r: usize)
        ensures
            r == self.spec_idx(),
    {
        match self {
            Color::White => 0,
            Color::Black => 1,
        }
    }
}

} // verus!
