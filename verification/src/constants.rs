//! Fixed tables of the engine.
use vstd::prelude::*;
use crate::piece_type::PieceType;

verus! {

pub const BOARD_SIZE: usize = 8;

/// Knight jumps as (rank, file) offsets.
pub const KNIGHT_MOVES: [(i16, i16); 8] = [
    (-2, -1),
    (-2, 1),
    (-1, 2),
    (1, 2),
    (2, 1),
    (2, -1),
    (1, -2),
    (-1, -2),
];

/// Pieces a pawn may promote to.
pub const PAWN_PROMOTION_CHOICES: [PieceType; 4] = [
    PieceType::Queen,
    PieceType::Rook,
    PieceType::Knight,
    PieceType::Bishop,
];

// Piece-square bonuses ("happy squares"), from white's point of view, with
// index 0 the a8 square and index 63 the h1 square.

pub const PAWN_HAPPY_SQUARES: [i64; 64] = [
    0, 0, 0, 0, 0, 0, 0, 0,
    50, 50, 50, 50, 50, 50, 50, 50,
    10, 10, 20, 30, 30, 20, 10, 10,
    5, 5, 10, 25, 25, 10, 5, 5,
    0, 0, 0, 20, 20, 0, 0, 0,
    5, -5, -10, 0, 0, -10, -5, 5,
    5, 10, 10, -20, -20, 10, 10, 5,
    0, 0, 0, 0, 0, 0, 0, 0,
];

pub const KNIGHT_HAPPY_SQUARES: [i64; 64] = [
    -50, -40, -30, -30, -30, -30, -40, -50,
    -40, -20, 0, 0, 0, 0, -20, -40,
    -30, 0, 10, 15, 15, 10, 0, -30,
    -30, 5, 15, 20, 20, 15, 5, -30,
    -30, 0, 15, 20, 20, 15, 0, -30,
    -30, 5, 10, 15, 15, 10, 5, -30,
    -40, -20, 0, 5, 5, 0, -20, -40,
    -50, -40, -30, -30, -30, -30, -40, -50,
];

pub const BISHOP_HAPPY_SQUARES: [i64; 64] = [
    -20, -10, -10, -10, -10, -10, -10, -20,
    -10, 0, 0, 0, 0, 0, 0, -10,
    -10, 0, 5, 10, 10, 5, 0, -10,
    -10, 5, 5, 10, 10, 5, 5, -10,
    -10, 0, 10, 10, 10, 10, 0, -10,
    -10, 10, 10, 10, 10, 10, 10, -10,
    -10, 5, 0, 0, 0, 0, 5, -10,
    -20, -10, -10, -10, -10, -10, -10, -20,
];

pub const ROOK_HAPPY_SQUARES: [i64; 64] = [
    0, 0, 0, 0, 0, 0, 0, 0,
    5, 10, 10, 10, 10, 10, 10, 5,
    -5, 0, 0, 0, 0, 0, 0, -5,
    -5, 0, 0, 0, 0, 0, 0, -5,
    -5, 0, 0, 0, 0, 0, 0, -5,
    -5, 0, 0, 0, 0, 0, 0, -5,
    -5, 0, 0, 0, 0, 0, 0, -5,
    0, 0, 0, 5, 5, 0, 0, 0,
];

pub const QUEEN_HAPPY_SQUARES: [i64; 64] = [
    -20, -10, -10, -5, -5, -10, -10, -20,
    -10, 0, 0, 0, 0, 0, 0, -10,
    -10, 0, 5, 5, 5, 5, 0, -10,
    -5, 0, 5, 5, 5, 5, 0, -5,
    0, 0, 5, 5, 5, 5, 0, -5,
    -10, 5, 5, 5, 5, 5, 0, -10,
    -10, 0, 5, 0, 0, 0, 0, -10,
    -20, -10, -10, -5, -5, -10, -10, -20,
];

pub const KING_HAPPY_SQUARES_NON_ENDGAME: [i64; 64] = [
    -30, -40, -40, -50, -50, -40, -40, -30,
    -30, -40, -40, -50, -50, -40, -40, -30,
    -30, -40, -40, -50, -50, -40, -40, -30,
    -30, -40, -40, -50, -50, -40, -40, -30,
    -20, -30, -30, -40, -40, -30, -30, -20,
    -10, -20, -20, -20, -20, -20, -20, -10,
    20, 20, 0, 0, 0, 0, 20, 20,
    20, 30, 10, 0, 0, 10, 30, 20,
];

/// Every piece-square bonus lies within [-50, 50].
pub proof fn lemma_happy_square_bounds()
    ensures
        forall|i: int|
            0 <= i < 64 ==> -50 <= #[trigger] PAWN_HAPPY_SQUARES@[i] <= 50
                && -50 <= KNIGHT_HAPPY_SQUARES@[i] <= 50 && -50 <= BISHOP_HAPPY_SQUARES@[i] <= 50
                && -50 <= ROOK_HAPPY_SQUARES@[i] <= 50 && -50 <= QUEEN_HAPPY_SQUARES@[i] <= 50
                && -50 <= KING_HAPPY_SQUARES_NON_ENDGAME@[i] <= 50,
{
    assert forall|i: int|
        0 <= i < 64 implies -50 <= #[trigger] PAWN_HAPPY_SQUARES@[i] <= 50
            && -50 <= KNIGHT_HAPPY_SQUARES@[i] <= 50 && -50 <= BISHOP_HAPPY_SQUARES@[i] <= 50
            && -50 <= ROOK_HAPPY_SQUARES@[i] <= 50 && -50 <= QUEEN_HAPPY_SQUARES@[i] <= 50
            && -50 <= KING_HAPPY_SQUARES_NON_ENDGAME@[i] <= 50 by {
        assert(0 <= i < 64);
    }
}

} // verus!
