//! Static evaluation: material plus piece-square bonuses, from white's view.
use vstd::prelude::*;
use crate::chess_game::{ChessGame, first_board_from};
use crate::color::Color;
use crate::constants::lemma_happy_square_bounds;
use crate::helpers::{
    has_bit, lsb, clear_lsb, popcount, get_lsb_index, pop_bit, lemma_popcount_clear_lsb,
    lemma_popcount_bound,
};
use crate::movegen::lemma_pop_lsb;
use crate::piece_type::PieceType;

verus! {

/// Value of the piece on `s` (counted for the side `white` says), or 0 for
/// an empty square.
pub open spec fn square_value(g: &ChessGame, s: int, white: bool) -> int {
    match g.piece_type_at(s) {
        Some(p) => p.spec_base_value() + p.spec_happy_square_value(s, white),
        None => 0,
    }
}

/// Total value of the pieces on the squares of `bb`.
pub open spec fn side_value(g: &ChessGame, bb: u64, white: bool) -> int
    decreases bb,
{
    if bb == 0 {
        0
    } else {
        proof {
            crate::helpers::lemma_clear_lsb_lt(bb);
        }
        square_value(g, lsb(bb) as int, white) + side_value(g, clear_lsb(bb), white)
    }
}

impl<'a> ChessGame<'a> {
    /// White's pieces minus black's pieces, each counted as material plus
    /// its square bonus.
    pub open spec fn evaluation(&self) -> int {
        side_value(self, self.occ(0), true) - side_value(self, self.occ(1), false)
    }
}

/// A square's value is between -50 and 950.
pub proof fn lemma_square_value_bound(g: &ChessGame, s: int, white: bool)
    requires
        0 <= s < 64,
    ensures
        -50 <= square_value(g, s, white) <= 950,
{
    lemma_happy_square_bounds();
    assert(0 <= crate::piece_type::mirror_rank(s) < 64);
}

/// A board's value is bounded by its number of squares.
pub proof fn lemma_side_value_bound(g: &ChessGame, bb: u64, white: bool)
    ensures
        -50 * popcount(bb) <= side_value(g, bb, white) <= 950 * popcount(bb),
    decreases bb,
{
    if bb != 0 {
        lemma_pop_lsb(bb);
        lemma_popcount_clear_lsb(bb);
        lemma_square_value_bound(g, lsb(bb) as int, white);
        lemma_side_value_bound(g, clear_lsb(bb), white);
    }
}

/// A square held by some board has a first board holding it.
pub proof fn lemma_board_at_some(pb: Seq<u64>, t: int, i: int, j: int)
    requires
        0 <= j <= i < 12,
        has_bit(pb[i], t),
    ensures
        first_board_from(pb, t, j) is Some,
    decreases i - j,
{
    if j < i {
        lemma_board_at_some(pb, t, i, j + 1);
    }
}

impl<'a> ChessGame<'a> {
    /// Sum of the values of the pieces on the squares of `bb`.
    fn side_total(&self, bb: u64, white: bool) -> (r: i64)
        requires
            self.occupancy_consistent(),
            bb == self.occ(0) || bb == self.occ(1),
        ensures
            r == side_value(self, bb, white),
    {
        let mut total: i64 = 0;
        let mut occupancies = bb;
        proof {
            lemma_popcount_bound(bb);
            lemma_side_value_bound(self, bb, white);
        }
        while occupancies != 0
            invariant
                self.occupancy_consistent(),
                bb == self.occ(0) || bb == self.occ(1),
                forall|t: int| #[trigger] has_bit(occupancies, t) ==> has_bit(bb, t),
                popcount(occupancies) <= popcount(bb) <= 64,
                total == side_value(self, bb, white) - side_value(self, occupancies, white),
                -50 * popcount(bb) <= side_value(self, bb, white) <= 950 * popcount(bb),
            decreases occupancies,
        {
            proof {
                lemma_pop_lsb(occupancies);
                lemma_popcount_clear_lsb(occupancies);
                lemma_side_value_bound(self, clear_lsb(occupancies), white);
            }
            let square = get_lsb_index(occupancies).unwrap();
            proof {
                let t = square as int;
                assert(has_bit(bb, t));
                crate::chess_game::lemma_side_union_bit(self.pb(), 0, t);
                crate::chess_game::lemma_side_union_bit(self.pb(), 6, t);
                let i = if has_bit(self.pb()[0], t) { 0 } else if has_bit(self.pb()[1], t) { 1 }
                    else if has_bit(self.pb()[2], t) { 2 } else if has_bit(self.pb()[3], t) { 3 }
                    else if has_bit(self.pb()[4], t) { 4 } else if has_bit(self.pb()[5], t) { 5 }
                    else if has_bit(self.pb()[6], t) { 6 } else if has_bit(self.pb()[7], t) { 7 }
                    else if has_bit(self.pb()[8], t) { 8 } else if has_bit(self.pb()[9], t) { 9 }
                    else if has_bit(self.pb()[10], t) { 10 } else { 11 };
                lemma_board_at_some(self.pb(), t, i, 0);
                lemma_square_value_bound(self, t, white);
            }
            let piece = self.get_piece_at_square(square).0.unwrap();
            total += piece.piece_base_value();
            total += piece.piece_happy_square_value(square, white);
            occupancies = pop_bit(occupancies, square);
        }
        total
    }

    /// White's material and square bonuses minus black's.
    pub fn evaluate_board(&self) -> (r: i64)
        requires
            self.occupancy_consistent(),
        ensures
            r == self.evaluation(),
            -64000 <= r <= 64000,
    {
        let white_piece_value_total = self.side_total(
            self.occupancy_bitboards[Color::White.occupancy_bitboard_index()],
            true,
        );
        let black_piece_value_total = self.side_total(
            self.occupancy_bitboards[Color::Black.occupancy_bitboard_index()],
            false,
        );
        proof {
            lemma_popcount_bound(self.occ(0));
            lemma_popcount_bound(self.occ(1));
            lemma_side_value_bound(self, self.occ(0), true);
            lemma_side_value_bound(self, self.occ(1), false);
        }
        white_piece_value_total - black_piece_value_total
    }
}

} // verus!
