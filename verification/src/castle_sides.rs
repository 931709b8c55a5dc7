//! The two directions of castling.
use vstd::prelude::*;
use crate::coord::Coord;

verus! {

#[derive(Copy, Clone, Debug, PartialEq, Eq, Structural)]
pub enum CastleSides {
    Short,
    Long,
}

impl CastleSides {
    /// Where the rook of this castling side starts: the h-file for short, the
    /// a-file for long, on rank 1 for white (y = 7) and rank 8 for black.
    pub fn get_rook_start_coord(&self, white: bool) -> (r: Coord)
        ensures
            r.y == (if white { 7usize } else { 0usize }),
            r.x == (match self {
                CastleSides::Short => 7usize,
                CastleSides::Long => 0usize,
            }),
    {
        let y: usize = if white { 7 } else { 0 };
        match self {
            CastleSides::Short => Coord { x: 7, y: y },
            CastleSides::Long => Coord { x: 0, y: y },
        }
    }
}

} // verus!
