//! The game state: bitboards, side to move, castling rights, en passant,
//! hashing, and everything that reads or changes them.
use vstd::prelude::*;
use std::collections::HashMap;
use crate::bitlemmas::{lemma_has_bit_or, lemma_has_bit_and, lemma_has_bit_zero, lemma_and_nonzero};
use crate::castle_sides::CastleSides;
use crate::chess_move::Move;
use crate::color::Color;
use crate::helpers::{has_bit, get_bit, set_bit, pop_bit, get_lsb_index, lsb};
use crate::piece_type::PieceType;
use crate::runtime_calculated_constants::{
    Constants, bishop_rays, rook_rays, pawn_attack_target, knight_attack_target,
    king_attack_target, dynamic_bishop_attacks, dynamic_rook_attacks, is_offset,
};
use crate::rays::{lemma_bishop_rays_symmetric, lemma_rook_rays_symmetric};
use crate::transposition_table_entry::TranspositionTableEntry;

verus! {

#[derive(Clone)]
pub struct ChessGame<'a> {
    pub bitboard_constants: &'a Constants,
    pub zobrist_hash: u64,
    pub transposition_table: HashMap<u64, TranspositionTableEntry>,
    pub en_passant_target: Option<usize>,
    pub white_to_move: bool,
    pub can_white_castle_long: bool,
    pub can_white_castle_short: bool,
    pub can_black_castle_long: bool,
    pub can_black_castle_short: bool,
    /// Indices 0-5: white pawns, bishops, knights, rooks, queens, kings;
    /// 6-11: the same for black.
    pub piece_bitboards: [u64; 12],
    /// 0: white pieces, 1: black pieces, 2: all pieces.
    pub occupancy_bitboards: [u64; 3],
    pub legal_moves: Vec<Move>,
    pub debug_minimax_calls: u64,
    pub debug_mimimax_moves_made: Vec<Move>,
}

/// Union of the six piece bitboards of a side.
pub open spec fn side_union(pb: Seq<u64>, off: int) -> u64 {
    pb[off] | pb[off + 1] | pb[off + 2] | pb[off + 3] | pb[off + 4] | pb[off + 5]
}

/// The first piece bitboard (from index `i` on) that holds `sq`.
pub open spec fn first_board_from(pb: Seq<u64>, sq: int, i: int) -> Option<int>
    decreases 12 - i,
{
    if i >= 12 || i < 0 {
        None
    } else if has_bit(pb[i], sq) {
        Some(i)
    } else {
        first_board_from(pb, sq, i + 1)
    }
}

/// The colour owning piece bitboard `i`.
pub open spec fn color_of_board(i: int) -> Color {
    if i < 6 {
        Color::White
    } else {
        Color::Black
    }
}

/// Whether a piece with board index `k` (0-5: pawn, bishop, knight, rook,
/// queen, king) of colour `c` standing on `s` attacks `t`, with `occ` the
/// occupied squares.
pub open spec fn piece_attacks(k: int, c: Color, s: int, occ: u64, t: int) -> bool {
    if k == 0 {
        pawn_attack_target(s, c, t)
    } else if k == 1 {
        has_bit(bishop_rays(s, occ), t)
    } else if k == 2 {
        knight_attack_target(s, t)
    } else if k == 3 {
        has_bit(rook_rays(s, occ), t)
    } else if k == 4 {
        has_bit(bishop_rays(s, occ), t) || has_bit(rook_rays(s, occ), t)
    } else {
        king_attack_target(s, t)
    }
}

/// Some piece of kind `k` and colour `c` attacks `t`.
pub open spec fn kind_attacks(pb: Seq<u64>, occ: u64, k: int, c: Color, t: int) -> bool {
    exists|s: int|
        0 <= s < 64 && #[trigger] has_bit(pb[c.spec_offset() + k], s) && piece_attacks(
            k,
            c,
            s,
            occ,
            t,
        )
}

impl<'a> ChessGame<'a> {
    pub open spec fn pb(&self) -> Seq<u64> {
        self.piece_bitboards@
    }

    pub open spec fn occ(&self, i: int) -> u64 {
        self.occupancy_bitboards@[i]
    }

    /// The occupancy bitboards agree with the piece bitboards.
    pub open spec fn occupancy_consistent(&self) -> bool {
        &&& self.occ(0) == side_union(self.pb(), 0)
        &&& self.occ(1) == side_union(self.pb(), 6)
        &&& self.occ(2) == self.occ(0) | self.occ(1)
    }

    /// No square holds two pieces.
    pub open spec fn pieces_disjoint(&self) -> bool {
        forall|i: int, j: int|
            0 <= i < 12 && 0 <= j < 12 && i != j ==> #[trigger] self.pb()[i] & #[trigger] self.pb()[j]
                == 0
    }

    /// The piece bitboard holding square `sq`, if any.
    pub open spec fn board_at(&self, sq: int) -> Option<int> {
        first_board_from(self.pb(), sq, 0)
    }

    /// The piece and colour on square `sq`.
    pub open spec fn piece_at(&self, sq: int) -> Option<(PieceType, Color)> {
        match self.board_at(sq) {
            Some(i) => Some((PieceType::spec_from_index(i), color_of_board(i))),
            None => None,
        }
    }

    pub fn new(c: &'a Constants) -> (r: Self)
        ensures
            r.bitboard_constants == c,
            r.zobrist_hash == 0,
            r.en_passant_target is None,
            r.white_to_move,
            r.can_white_castle_long && r.can_white_castle_short,
            r.can_black_castle_long && r.can_black_castle_short,
            forall|i: int| 0 <= i < 12 ==> r.pb()[i] == 0,
            forall|i: int| 0 <= i < 3 ==> r.occ(i) == 0,
            r.legal_moves@.len() == 0,
            r.debug_minimax_calls == 0,
            r.debug_mimimax_moves_made@.len() == 0,
            r.transposition_table@.len() == 0,
    {
        ChessGame {
            bitboard_constants: c,
            zobrist_hash: 0,
            transposition_table: HashMap::new(),
            en_passant_target: None,
            white_to_move: true,
            can_white_castle_long: true,
            can_white_castle_short: true,
            can_black_castle_long: true,
            can_black_castle_short: true,
            piece_bitboards: [0u64; 12],
            occupancy_bitboards: [0u64; 3],
            legal_moves: Vec::new(),
            debug_minimax_calls: 0,
            debug_mimimax_moves_made: Vec::new(),
        }
    }

    /// Takes all pieces off the board.
    pub fn clear_board(&mut self)
        ensures
            forall|i: int| 0 <= i < 12 ==> final(self).pb()[i] == 0,
            forall|i: int| 0 <= i < 3 ==> final(self).occ(i) == 0,
            *final(self) == (ChessGame {
                piece_bitboards: final(self).piece_bitboards,
                occupancy_bitboards: final(self).occupancy_bitboards,
                ..*old(self)
            }),
    {
        self.piece_bitboards = [0u64; 12];
        self.occupancy_bitboards = [0u64; 3];
    }

    /// Adds a piece of `side` on `square` to its piece bitboard and to the
    /// occupancy bitboards.
    pub fn place_piece_on_board(&mut self, side: Color, piece_type: PieceType, square: usize)
        requires
            square < 64,
        ensures
            ({
                let k = side.spec_offset() + piece_type.spec_index();
                &&& forall|i: int|
                    0 <= i < 12 && i != k ==> final(self).pb()[i] == old(self).pb()[i]
                &&& final(self).pb()[k] == old(self).pb()[k] | (1u64 << (square as u64))
            }),
            final(self).occ(side.spec_idx() as int) == old(self).occ(side.spec_idx() as int) | (
            1u64 << (square as u64)),
            final(self).occ(1 - side.spec_idx()) == old(self).occ(1 - side.spec_idx()),
            final(self).occ(2) == old(self).occ(2) | (1u64 << (square as u64)),
            *final(self) == (ChessGame {
                piece_bitboards: final(self).piece_bitboards,
                occupancy_bitboards: final(self).occupancy_bitboards,
                ..*old(self)
            }),
    {
        let piece_bitboard_index = piece_type.bitboard_index() + side.piece_bitboard_offset();
        self.piece_bitboards[piece_bitboard_index] = set_bit(
            self.piece_bitboards[piece_bitboard_index],
            square,
        );
        let occupancy_bitboard_index = side.occupancy_bitboard_index();
        self.occupancy_bitboards[occupancy_bitboard_index] = set_bit(
            self.occupancy_bitboards[occupancy_bitboard_index],
            square,
        );
        self.occupancy_bitboards[2] = set_bit(self.occupancy_bitboards[2], square);
    }

    /// The piece and colour on `square`, or `(None, None)` when it is empty.
    pub fn get_piece_at_square(&self, square: usize) -> (r: (Option<PieceType>, Option<Color>))
        requires
            square < 64,
            self.occupancy_consistent(),
        ensures
            r == (match self.piece_at(square as int) {
                Some((p, c)) => (Some(p), Some(c)),
                None => (None, None),
            }),
    {
        let ghost sq = square as int;
        proof {
            lemma_side_union_bit(self.pb(), 0, sq);
            lemma_side_union_bit(self.pb(), 6, sq);
            lemma_has_bit_or(self.occ(0), self.occ(1), sq);
            lemma_first_board_unfold(self.pb(), sq);
        }
        let is_occupied = get_bit(self.occupancy_bitboards[2], square) != 0;
        if !is_occupied {
            return (None, None);
        }
        let is_occupied_white = get_bit(self.occupancy_bitboards[0], square) != 0;
        let piece_color: Color = if is_occupied_white {
            Color::White
        } else {
            Color::Black
        };
        let start_bitboard_index: usize = piece_color.piece_bitboard_offset();
        let mut i = start_bitboard_index;
        while i < start_bitboard_index + 6
            invariant
                start_bitboard_index == piece_color.spec_offset(),
                start_bitboard_index <= i <= start_bitboard_index + 6,
                forall|k: int| start_bitboard_index <= k < i ==> !has_bit(self.pb()[k], sq),
                square < 64,
                sq == square,
                is_occupied_white ==> piece_color == Color::White,
                !is_occupied_white ==> piece_color == Color::Black,
                is_occupied_white == has_bit(self.occ(0), sq),
                has_bit(self.occ(0), sq) || has_bit(self.occ(1), sq),
                self.occupancy_consistent(),
                has_bit(side_union(self.pb(), 0), sq) == (has_bit(self.pb()[0], sq) || has_bit(
                    self.pb()[1],
                    sq,
                ) || has_bit(self.pb()[2], sq) || has_bit(self.pb()[3], sq) || has_bit(
                    self.pb()[4],
                    sq,
                ) || has_bit(self.pb()[5], sq)),
                has_bit(side_union(self.pb(), 6), sq) == (has_bit(self.pb()[6], sq) || has_bit(
                    self.pb()[7],
                    sq,
                ) || has_bit(self.pb()[8], sq) || has_bit(self.pb()[9], sq) || has_bit(
                    self.pb()[10],
                    sq,
                ) || has_bit(self.pb()[11], sq)),
                forall|j: int|
                    0 <= j < 12 ==> first_board_from(self.pb(), sq, j) == (if has_bit(
                        self.pb()[j],
                        sq,
                    ) {
                        Some(j)
                    } else {
                        first_board_from(self.pb(), sq, j + 1)
                    }),
                first_board_from(self.pb(), sq, 12) is None,
            decreases start_bitboard_index + 6 - i,
        {
            if get_bit(self.piece_bitboards[i], square) != 0 {
                proof {
                    if i >= 6 {
                        assert(!has_bit(self.occ(0), sq));
                        assert(first_board_from(self.pb(), sq, 0) == first_board_from(
                            self.pb(),
                            sq,
                            6,
                        ));
                    }
                    assert(first_board_from(self.pb(), sq, start_bitboard_index as int)
                        == first_board_from(self.pb(), sq, i as int));
                }
                return (Some(PieceType::bitboard_index_to_piece_type(i)), Some(piece_color));
            }
            i += 1;
        }
        proof {
            assert(false);
        }
        (None, None)
    }
}

/// A square is in a side's union exactly when one of its six boards holds it.
pub proof fn lemma_side_union_bit(pb: Seq<u64>, off: int, sq: int)
    requires
        pb.len() == 12,
        off == 0 || off == 6,
    ensures
        has_bit(side_union(pb, off), sq) == (has_bit(pb[off], sq) || has_bit(pb[off + 1], sq)
            || has_bit(pb[off + 2], sq) || has_bit(pb[off + 3], sq) || has_bit(pb[off + 4], sq)
            || has_bit(pb[off + 5], sq)),
{
    lemma_has_bit_or(pb[off], pb[off + 1], sq);
    lemma_has_bit_or(pb[off] | pb[off + 1], pb[off + 2], sq);
    lemma_has_bit_or(pb[off] | pb[off + 1] | pb[off + 2], pb[off + 3], sq);
    lemma_has_bit_or(pb[off] | pb[off + 1] | pb[off + 2] | pb[off + 3], pb[off + 4], sq);
    lemma_has_bit_or(pb[off] | pb[off + 1] | pb[off + 2] | pb[off + 3] | pb[off + 4], pb[off + 5], sq);
}

pub proof fn lemma_first_board_unfold(pb: Seq<u64>, sq: int)
    ensures
        forall|j: int|
            0 <= j < 12 ==> first_board_from(pb, sq, j) == (if has_bit(pb[j], sq) {
                Some(j)
            } else {
                first_board_from(pb, sq, j + 1)
            }),
        first_board_from(pb, sq, 12) is None,
{
}


impl<'a> ChessGame<'a> {
    /// Some piece of colour `c` attacks square `t`.
    pub open spec fn attacked_by(&self, t: int, c: Color) -> bool {
        exists|k: int|
            0 <= k < 6 && #[trigger] kind_attacks(self.pb(), self.occ(2), k, c, t)
    }

    /// Squares a bishop on `square` attacks, given the occupied squares.
    pub fn get_bishop_attacks(&self, square: usize, occupancy: u64) -> (r: u64)
        requires
            square < 64,
        ensures
            r == bishop_rays(square as int, occupancy),
    {
        dynamic_bishop_attacks(square as u64, occupancy)
    }

    /// Squares a rook on `square` attacks, given the occupied squares.
    pub fn get_rook_attacks(&self, square: usize, occupancy: u64) -> (r: u64)
        requires
            square < 64,
        ensures
            r == rook_rays(square as int, occupancy),
    {
        dynamic_rook_attacks(square as u64, occupancy)
    }

    /// Squares a queen on `square` attacks, given the occupied squares.
    pub fn get_queen_attacks(&self, square: usize, occupancy: u64) -> (r: u64)
        requires
            square < 64,
        ensures
            r == bishop_rays(square as int, occupancy) | rook_rays(square as int, occupancy),
    {
        self.get_bishop_attacks(square, occupancy) | self.get_rook_attacks(square, occupancy)
    }

    /// Whether any piece of `who_is_attacking` attacks `square`.
    pub fn is_square_attacked(&self, square: usize, who_is_attacking: &Color) -> (r: bool)
        requires
            square < 64,
            self.bitboard_constants.tables_correct(),
        ensures
            r == self.attacked_by(square as int, *who_is_attacking),
    {
        let c = *who_is_attacking;
        let off = who_is_attacking.piece_bitboard_offset();
        let all_occupancies = self.occupancy_bitboards[2];
        let opponent_pawn_attacks_index = match who_is_attacking {
            Color::White => Color::Black.idx(),
            Color::Black => Color::White.idx(),
        };
        let ghost t = square as int;
        let ghost pb = self.pb();
        let pawn_mask = self.bitboard_constants.pawn_attacks[opponent_pawn_attacks_index][square];
        let x0 = pawn_mask & self.piece_bitboards[off];
        proof {
            lemma_and_nonzero(pawn_mask, pb[off as int]);
            assert forall|s: int| 0 <= s < 64 implies has_bit(pawn_mask, s) == pawn_attack_target(
                s,
                c,
                t,
            ) by {
                assert(has_bit(pawn_mask, s) == pawn_attack_target(t, c.opponent(), s));
            }
            if x0 != 0 {
                let s = choose|s: int| 0 <= s < 64 && has_bit(pawn_mask, s) && #[trigger] has_bit(pb[off as int], s);
                assert(has_bit(pb[c.spec_offset() + 0], s));
                assert(pawn_attack_target(s, c, t));
                assert(kind_attacks(pb, all_occupancies, 0, c, t));
                assert(all_occupancies == self.occ(2) && pb == self.pb());
                assert(kind_attacks(self.pb(), self.occ(2), 0, c, t));
                assert(self.attacked_by(t, c));
            } else {
                assert forall|s: int| 0 <= s < 64 && #[trigger] has_bit(pb[c.spec_offset() + 0], s) implies !pawn_attack_target(s, c, t) by {
                    assert(has_bit(pb[off as int], s));
                }
                assert(!kind_attacks(pb, all_occupancies, 0, c, t));
            }
        }
        if x0 != 0 {
            return true;
        }
        let bishop_mask = self.get_bishop_attacks(square, all_occupancies);
        let x1 = bishop_mask & self.piece_bitboards[1 + off];
        proof {
            lemma_and_nonzero(bishop_mask, pb[off + 1]);
            assert forall|s: int| 0 <= s < 64 implies has_bit(bishop_mask, s) == has_bit(
                bishop_rays(s, all_occupancies),
                t,
            ) by {
                lemma_bishop_rays_symmetric(s, t, all_occupancies);
            }
            if x1 != 0 {
                let s = choose|s: int| 0 <= s < 64 && has_bit(bishop_mask, s) && #[trigger] has_bit(pb[off + 1], s);
                assert(kind_attacks(pb, all_occupancies, 1, c, t));
                assert(all_occupancies == self.occ(2) && pb == self.pb());
                assert(kind_attacks(self.pb(), self.occ(2), 1, c, t));
                assert(self.attacked_by(t, c));
            } else {
                assert(!kind_attacks(pb, all_occupancies, 1, c, t));
            }
        }
        if x1 != 0 {
            return true;
        }
        let knight_mask = self.bitboard_constants.knight_attacks[square];
        let x2 = knight_mask & self.piece_bitboards[2 + off];
        proof {
            lemma_and_nonzero(knight_mask, pb[off + 2]);
            if x2 != 0 {
                let s = choose|s: int| 0 <= s < 64 && has_bit(knight_mask, s) && #[trigger] has_bit(pb[off + 2], s);
                assert(knight_attack_target(t, s));
                assert(kind_attacks(pb, all_occupancies, 2, c, t));
                assert(all_occupancies == self.occ(2) && pb == self.pb());
                assert(kind_attacks(self.pb(), self.occ(2), 2, c, t));
                assert(self.attacked_by(t, c));
            } else {
                assert forall|s: int| 0 <= s < 64 && #[trigger] has_bit(pb[off + 2], s) implies !knight_attack_target(s, t) by {
                    assert(has_bit(knight_mask, s) == knight_attack_target(t, s));
                }
                assert(!kind_attacks(pb, all_occupancies, 2, c, t));
            }
        }
        if x2 != 0 {
            return true;
        }
        let rook_mask = self.get_rook_attacks(square, all_occupancies);
        let x3 = rook_mask & self.piece_bitboards[3 + off];
        proof {
            lemma_and_nonzero(rook_mask, pb[off + 3]);
            assert forall|s: int| 0 <= s < 64 implies has_bit(rook_mask, s) == has_bit(
                rook_rays(s, all_occupancies),
                t,
            ) by {
                lemma_rook_rays_symmetric(s, t, all_occupancies);
            }
            if x3 != 0 {
                let s = choose|s: int| 0 <= s < 64 && has_bit(rook_mask, s) && #[trigger] has_bit(pb[off + 3], s);
                assert(kind_attacks(pb, all_occupancies, 3, c, t));
                assert(all_occupancies == self.occ(2) && pb == self.pb());
                assert(kind_attacks(self.pb(), self.occ(2), 3, c, t));
                assert(self.attacked_by(t, c));
            } else {
                assert(!kind_attacks(pb, all_occupancies, 3, c, t));
            }
        }
        if x3 != 0 {
            return true;
        }
        let queen_mask = self.get_queen_attacks(square, all_occupancies);
        let x4 = queen_mask & self.piece_bitboards[4 + off];
        proof {
            lemma_and_nonzero(queen_mask, pb[off + 4]);
            assert forall|s: int| 0 <= s < 64 implies has_bit(queen_mask, s) == (has_bit(
                bishop_rays(s, all_occupancies),
                t,
            ) || has_bit(rook_rays(s, all_occupancies), t)) by {
                lemma_bishop_rays_symmetric(s, t, all_occupancies);
                lemma_rook_rays_symmetric(s, t, all_occupancies);
                lemma_has_bit_or(bishop_rays(t, all_occupancies), rook_rays(t, all_occupancies), s);
            }
            if x4 != 0 {
                let s = choose|s: int| 0 <= s < 64 && has_bit(queen_mask, s) && #[trigger] has_bit(pb[off + 4], s);
                assert(kind_attacks(pb, all_occupancies, 4, c, t));
                assert(all_occupancies == self.occ(2) && pb == self.pb());
                assert(kind_attacks(self.pb(), self.occ(2), 4, c, t));
                assert(self.attacked_by(t, c));
            } else {
                assert(!kind_attacks(pb, all_occupancies, 4, c, t));
            }
        }
        if x4 != 0 {
            return true;
        }
        let king_mask = self.bitboard_constants.king_attacks[square];
        let x5 = king_mask & self.piece_bitboards[5 + off];
        proof {
            lemma_and_nonzero(king_mask, pb[off + 5]);
            if x5 != 0 {
                let s = choose|s: int| 0 <= s < 64 && has_bit(king_mask, s) && #[trigger] has_bit(pb[off + 5], s);
                assert(king_attack_target(t, s));
                assert(kind_attacks(pb, all_occupancies, 5, c, t));
                assert(all_occupancies == self.occ(2) && pb == self.pb());
                assert(kind_attacks(self.pb(), self.occ(2), 5, c, t));
                assert(self.attacked_by(t, c));
            } else {
                assert forall|s: int| 0 <= s < 64 && #[trigger] has_bit(pb[off + 5], s) implies !king_attack_target(s, t) by {
                    assert(has_bit(king_mask, s) == king_attack_target(t, s));
                }
                assert(!kind_attacks(pb, all_occupancies, 5, c, t));
            }
        }
        if x5 != 0 {
            return true;
        }
        proof {
            assert forall|k: int| 0 <= k < 6 implies !#[trigger] kind_attacks(pb, all_occupancies, k, c, t) by {
                if k == 0 {} else if k == 1 {} else if k == 2 {} else if k == 3 {} else if k == 4 {} else {}
            }
        }
        false
    }
}

} // verus!
