//! Pseudo-legal move generation: every move of the side to move that
//! follows the piece's movement rules, whether or not it leaves its own
//! king attacked.
use vstd::prelude::*;
use crate::castle_sides::CastleSides;
use crate::chess_game::ChessGame;
use crate::chess_move::Move;
use crate::color::Color;
use crate::helpers::{has_bit, lsb, clear_lsb, lemma_lsb, lemma_clear_lsb_lt, get_lsb_index, pop_bit, set_bit, get_bit};
use crate::bitlemmas::{lemma_and_nonzero, lemma_has_bit_or, lemma_has_bit_zero};
use crate::piece_type::PieceType;
use crate::runtime_calculated_constants::{bishop_rays, rook_rays};

verus! {

/// The moves `f` gives for each square of `bb`, lowest square first.
pub open spec fn bb_moves(bb: u64, f: spec_fn(usize) -> Move) -> Seq<Move>
    decreases bb,
{
    if bb == 0 {
        seq![]
    } else {
        proof {
            lemma_clear_lsb_lt(bb);
        }
        seq![f(lsb(bb) as usize)] + bb_moves(clear_lsb(bb), f)
    }
}

/// The move lists `f` gives for each square of `bb`, lowest square first,
/// joined together.
pub open spec fn bb_flat(bb: u64, f: spec_fn(usize) -> Seq<Move>) -> Seq<Move>
    decreases bb,
{
    if bb == 0 {
        seq![]
    } else {
        proof {
            lemma_clear_lsb_lt(bb);
        }
        f(lsb(bb) as usize) + bb_flat(clear_lsb(bb), f)
    }
}

/// A move of `piece` from `from` to `to`, capturing `captured`, with only
/// the current en-passant target recorded.
pub open spec fn basic_move(
    from: usize,
    piece: PieceType,
    to: usize,
    captured: Option<PieceType>,
    ep: Option<usize>,
) -> Move {
    Move {
        from_square: from,
        from_piece_type: Some(piece),
        to_square: to,
        to_piece_type: captured,
        last_en_passant_target_coord: ep,
        next_en_passant_target_coord: None,
        is_en_passant_capture: false,
        pawn_promoting_to: None,
        castle_side: None,
        is_check: None,
        removes_white_castling_rights_short: None,
        removes_white_castling_rights_long: None,
        removes_black_castling_rights_short: None,
        removes_black_castling_rights_long: None,
    }
}

/// Removing the lowest square of a board is clearing its lowest bit.
pub proof fn lemma_pop_lsb(bb: u64)
    requires
        bb != 0,
    ensures
        lsb(bb) < 64,
        has_bit(bb, lsb(bb) as int),
        bb & !(1u64 << (lsb(bb) as u64)) == clear_lsb(bb),
        clear_lsb(bb) < bb,
{
    lemma_lsb(bb);
    lemma_clear_lsb_lt(bb);
}

impl<'a> ChessGame<'a> {
    /// The kind of piece on square `t`, if any.
    pub open spec fn piece_type_at(&self, t: int) -> Option<PieceType> {
        match self.piece_at(t) {
            Some((p, _)) => Some(p),
            None => None,
        }
    }

    /// Offset of the side to move's piece bitboards.
    pub open spec fn our_offset(&self) -> int {
        if self.white_to_move {
            0
        } else {
            6
        }
    }

    /// The squares of the side not to move.
    pub open spec fn their_occ(&self) -> u64 {
        if self.white_to_move {
            self.occ(1)
        } else {
            self.occ(0)
        }
    }

    /// The move of `piece` from `from` to `to`: a capture of whatever stands
    /// on `to` when `capture` holds, else a quiet move.
    pub open spec fn target_move(&self, from: usize, piece: PieceType, to: usize, capture: bool) -> Move {
        basic_move(
            from,
            piece,
            to,
            if capture {
                self.piece_type_at(to as int)
            } else {
                None
            },
            self.en_passant_target,
        )
    }

    /// The moves of `piece` from `from` to each square of `targets`.
    pub open spec fn targets_moves(&self, from: usize, piece: PieceType, targets: u64, capture: bool) -> Seq<Move> {
        bb_moves(targets, |t: usize| self.target_move(from, piece, t, capture))
    }

    /// Quiet moves to the empty squares of `attacks`, then captures on the
    /// squares of `attacks` held by the other side.
    pub open spec fn moves_to_attacked(&self, from: usize, piece: PieceType, attacks: u64) -> Seq<Move> {
        self.targets_moves(from, piece, attacks & !self.occ(2), false) + self.targets_moves(
            from,
            piece,
            attacks & self.their_occ(),
            true,
        )
    }

    /// Appends the moves of `piece` from `from` to each square of `targets`.
    fn push_targets(&self, moves: &mut Vec<Move>, from: usize, piece: PieceType, targets: u64, capture: bool)
        requires
            self.occupancy_consistent(),
        ensures
            final(moves)@ == old(moves)@ + self.targets_moves(from, piece, targets, capture),
    {
        let mut remaining = targets;
        while remaining != 0
            invariant
                self.occupancy_consistent(),
                moves@ + self.targets_moves(from, piece, remaining, capture) == old(moves)@
                    + self.targets_moves(from, piece, targets, capture),
            decreases remaining,
        {
            proof {
                lemma_pop_lsb(remaining);
            }
            let to = get_lsb_index(remaining).unwrap();
            let captured = if capture {
                self.get_piece_at_square(to).0
            } else {
                None
            };
            let ghost before = moves@;
            moves.push(
                Move {
                    from_square: from,
                    from_piece_type: Some(piece),
                    to_square: to,
                    to_piece_type: captured,
                    last_en_passant_target_coord: self.en_passant_target,
                    next_en_passant_target_coord: None,
                    is_en_passant_capture: false,
                    pawn_promoting_to: None,
                    castle_side: None,
                    is_check: None,
                    removes_white_castling_rights_short: None,
                    removes_white_castling_rights_long: None,
                    removes_black_castling_rights_short: None,
                    removes_black_castling_rights_long: None,
                },
            );
            let ghost rest = self.targets_moves(from, piece, clear_lsb(remaining), capture);
            assert(self.targets_moves(from, piece, remaining, capture) == seq![
                self.target_move(from, piece, to, capture),
            ] + rest);
            assert(before + (seq![self.target_move(from, piece, to, capture)] + rest) =~= moves@
                + rest);
            remaining = pop_bit(remaining, to);
        }
        assert(moves@ + self.targets_moves(from, piece, 0, capture) =~= moves@);
    }
}

/// The pieces that slide along lines.
pub enum SliderPieces {
    Queen,
    Rook,
    Bishop,
}

/// Whether `piece` slides (bishop, rook, queen).
pub open spec fn is_slider(piece: PieceType) -> bool {
    piece == PieceType::Bishop || piece == PieceType::Rook || piece == PieceType::Queen
}

/// Squares a slider of kind `piece` on `s` attacks, given the occupied squares.
pub open spec fn slider_attacks(piece: PieceType, s: int, occ: u64) -> u64 {
    if piece == PieceType::Bishop {
        bishop_rays(s, occ)
    } else if piece == PieceType::Rook {
        rook_rays(s, occ)
    } else {
        bishop_rays(s, occ) | rook_rays(s, occ)
    }
}

impl<'a> ChessGame<'a> {
    /// Knight moves of the side to move, by knight square then target square,
    /// quiet moves before captures.
    pub open spec fn knight_moves(&self) -> Seq<Move> {
        bb_flat(
            self.pb()[self.our_offset() + 2],
            |s: usize| self.moves_to_attacked(s, PieceType::Knight, self.bitboard_constants.knight_attacks@[s as int]),
        )
    }

    /// Moves of the side to move's sliders of kind `piece`, by piece square
    /// then target square, quiet moves before captures.
    pub open spec fn slider_moves(&self, piece: PieceType) -> Seq<Move> {
        bb_flat(
            self.pb()[self.our_offset() + piece.spec_index()],
            |s: usize| self.moves_to_attacked(s, piece, slider_attacks(piece, s as int, self.occ(2))),
        )
    }

    /// Appends the moves of `piece` from `from` to the squares of `attacks`.
    fn push_attacked(&self, moves: &mut Vec<Move>, from: usize, piece: PieceType, attacks: u64)
        requires
            self.occupancy_consistent(),
        ensures
            final(moves)@ == old(moves)@ + self.moves_to_attacked(from, piece, attacks),
    {
        let their_occupancies = if self.white_to_move {
            self.occupancy_bitboards[1]
        } else {
            self.occupancy_bitboards[0]
        };
        let quiet_moves = attacks & !self.occupancy_bitboards[2];
        let captures = attacks & their_occupancies;
        let ghost before = moves@;
        self.push_targets(moves, from, piece, quiet_moves, false);
        self.push_targets(moves, from, piece, captures, true);
        assert(moves@ =~= before + self.moves_to_attacked(from, piece, attacks));
    }

    /// The knight moves of the side to move.
    pub fn get_moves_knight(&self) -> (r: Vec<Move>)
        requires
            self.occupancy_consistent(),
            self.bitboard_constants.shaped(),
        ensures
            r@ == self.knight_moves(),
    {
        let mut moves: Vec<Move> = Vec::new();
        let off: usize = if self.white_to_move { 0 } else { 6 };
        let mut knights = self.piece_bitboards[off + 2];
        let ghost f = |s: usize| self.moves_to_attacked(s, PieceType::Knight, self.bitboard_constants.knight_attacks@[s as int]);
        while knights != 0
            invariant
                self.occupancy_consistent(),
                self.bitboard_constants.shaped(),
                off == self.our_offset(),
                f == (|s: usize| self.moves_to_attacked(s, PieceType::Knight, self.bitboard_constants.knight_attacks@[s as int])),
                moves@ + bb_flat(knights, f) == bb_flat(self.pb()[off + 2], f),
            decreases knights,
        {
            proof {
                lemma_pop_lsb(knights);
            }
            let source_square = get_lsb_index(knights).unwrap();
            let ghost before = moves@;
            self.push_attacked(
                &mut moves,
                source_square,
                PieceType::Knight,
                self.bitboard_constants.knight_attacks[source_square],
            );
            assert(before + bb_flat(knights, f) =~= moves@ + bb_flat(clear_lsb(knights), f));
            knights = pop_bit(knights, source_square);
        }
        assert(moves@ + bb_flat(0, f) =~= moves@);
        moves
    }

    /// The moves of the side to move's sliders of kind `slider_piece_type`
    /// (bishop, rook or queen).
    pub fn get_moves_slider(&self, slider_piece_type: PieceType) -> (r: Vec<Move>)
        requires
            self.occupancy_consistent(),
            is_slider(slider_piece_type),
        ensures
            r@ == self.slider_moves(slider_piece_type),
    {
        let mut moves: Vec<Move> = Vec::new();
        let off: usize = if self.white_to_move { 0 } else { 6 };
        let all_occupancies = self.occupancy_bitboards[2];
        let mut sliders = self.piece_bitboards[off + slider_piece_type.bitboard_index()];
        let ghost f = |s: usize| self.moves_to_attacked(s, slider_piece_type, slider_attacks(slider_piece_type, s as int, self.occ(2)));
        while sliders != 0
            invariant
                self.occupancy_consistent(),
                is_slider(slider_piece_type),
                off == self.our_offset(),
                all_occupancies == self.occ(2),
                f == (|s: usize| self.moves_to_attacked(s, slider_piece_type, slider_attacks(slider_piece_type, s as int, self.occ(2)))),
                moves@ + bb_flat(sliders, f) == bb_flat(self.pb()[off + slider_piece_type.spec_index()], f),
            decreases sliders,
        {
            proof {
                lemma_pop_lsb(sliders);
            }
            let source_square = get_lsb_index(sliders).unwrap();
            let attacks = match slider_piece_type {
                PieceType::Queen => self.get_queen_attacks(source_square, all_occupancies),
                PieceType::Rook => self.get_rook_attacks(source_square, all_occupancies),
                _ => self.get_bishop_attacks(source_square, all_occupancies),
            };
            let ghost before = moves@;
            self.push_attacked(&mut moves, source_square, slider_piece_type, attacks);
            assert(before + bb_flat(sliders, f) =~= moves@ + bb_flat(clear_lsb(sliders), f));
            sliders = pop_bit(sliders, source_square);
        }
        assert(moves@ + bb_flat(0, f) =~= moves@);
        moves
    }
}

/// The castling move of the king from `from` to `to`.
pub open spec fn castle_move(from: usize, to: usize, side: CastleSides, ep: Option<usize>) -> Move {
    Move { castle_side: Some(side), ..basic_move(from, PieceType::King, to, None, ep) }
}

impl<'a> ChessGame<'a> {
    /// The side to move.
    pub open spec fn us(&self) -> Color {
        if self.white_to_move {
            Color::White
        } else {
            Color::Black
        }
    }

    /// The side not to move.
    pub open spec fn them(&self) -> Color {
        if self.white_to_move {
            Color::Black
        } else {
            Color::White
        }
    }

    /// The square the side to move's king starts on.
    pub open spec fn king_start(&self) -> int {
        if self.white_to_move {
            60
        } else {
            4
        }
    }

    /// Whether the side to move still holds the short (or long) castling right.
    pub open spec fn castle_right(&self, short: bool) -> bool {
        if self.white_to_move {
            if short {
                self.can_white_castle_short
            } else {
                self.can_white_castle_long
            }
        } else {
            if short {
                self.can_black_castle_short
            } else {
                self.can_black_castle_long
            }
        }
    }

    /// Short castling is offered when the right is held, the two squares
    /// next to the king are empty and the one the king crosses is not attacked.
    pub open spec fn short_castle_open(&self) -> bool {
        let k = self.king_start();
        &&& self.castle_right(true)
        &&& !has_bit(self.occ(2), k + 1)
        &&& !has_bit(self.occ(2), k + 2)
        &&& !self.attacked_by(k + 1, self.them())
    }

    /// Long castling is offered when the right is held, the three squares
    /// between king and rook are empty and the one the king crosses is not
    /// attacked.
    pub open spec fn long_castle_open(&self) -> bool {
        let k = self.king_start();
        &&& self.castle_right(false)
        &&& !has_bit(self.occ(2), k - 1)
        &&& !has_bit(self.occ(2), k - 2)
        &&& !has_bit(self.occ(2), k - 3)
        &&& !self.attacked_by(k - 1, self.them())
    }

    /// King moves of the side to move: steps to empty squares, captures,
    /// then short and long castling. Nothing when it has no king.
    pub open spec fn king_moves(&self) -> Seq<Move> {
        let kb = self.pb()[self.our_offset() + 5];
        let s = lsb(kb) as usize;
        let k = self.king_start();
        if kb == 0 {
            seq![]
        } else {
            self.moves_to_attacked(s, PieceType::King, self.bitboard_constants.king_attacks@[s as int])
                + (if self.short_castle_open() {
                seq![castle_move(s, (k + 2) as usize, CastleSides::Short, self.en_passant_target)]
            } else {
                seq![]
            }) + (if self.long_castle_open() {
                seq![castle_move(s, (k - 2) as usize, CastleSides::Long, self.en_passant_target)]
            } else {
                seq![]
            })
        }
    }

    /// The king moves of the side to move.
    pub fn get_moves_king(&self) -> (r: Vec<Move>)
        requires
            self.occupancy_consistent(),
            self.bitboard_constants.tables_correct(),
        ensures
            r@ == self.king_moves(),
    {
        let mut moves: Vec<Move> = Vec::new();
        let white = self.white_to_move;
        let their_color: Color = if white { Color::Black } else { Color::White };
        let bitboard: u64 = if white { self.piece_bitboards[5] } else { self.piece_bitboards[11] };
        let can_castle_short: bool = if white { self.can_white_castle_short } else { self.can_black_castle_short };
        let can_castle_long: bool = if white { self.can_white_castle_long } else { self.can_black_castle_long };
        let king_starting_square: usize = if white { 60 } else { 4 };
        if bitboard == 0 {
            return moves;
        }
        proof {
            lemma_pop_lsb(bitboard);
        }
        let source_square = get_lsb_index(bitboard).unwrap();
        self.push_attacked(
            &mut moves,
            source_square,
            PieceType::King,
            self.bitboard_constants.king_attacks[source_square],
        );
        let ghost after_steps = moves@;
        let all = self.occupancy_bitboards[2];
        if can_castle_short {
            let a = set_bit(0, king_starting_square + 1);
            let b = set_bit(0, king_starting_square + 2);
            let squares_should_be_empty = a | b;
            let is_intermediary_square_attacked = self.is_square_attacked(
                king_starting_square + 1,
                &their_color,
            );
            proof {
                lemma_and_nonzero(squares_should_be_empty, all);
                assert forall|t: int| has_bit(squares_should_be_empty, t) == (t == king_starting_square + 1 || t == king_starting_square + 2) by {
                    lemma_has_bit_or(a, b, t);
                    lemma_has_bit_zero(t);
                }
                if (squares_should_be_empty & all) == 0 {
                    assert(has_bit(squares_should_be_empty, king_starting_square + 1));
                    assert(has_bit(squares_should_be_empty, king_starting_square + 2));
                } else {
                    let t = choose|t: int| 0 <= t < 64 && has_bit(squares_should_be_empty, t) && #[trigger] has_bit(all, t);
                    assert(has_bit(squares_should_be_empty, t));
                }
                assert(((squares_should_be_empty & all) == 0 && !is_intermediary_square_attacked) == self.short_castle_open());
            }
            if (squares_should_be_empty & all) == 0 && !is_intermediary_square_attacked {
                moves.push(
                    Move {
                        from_square: source_square,
                        from_piece_type: Some(PieceType::King),
                        to_square: king_starting_square + 2,
                        to_piece_type: None,
                        last_en_passant_target_coord: self.en_passant_target,
                        next_en_passant_target_coord: None,
                        is_en_passant_capture: false,
                        pawn_promoting_to: None,
                        castle_side: Some(CastleSides::Short),
                        is_check: None,
                        removes_white_castling_rights_short: None,
                        removes_white_castling_rights_long: None,
                        removes_black_castling_rights_short: None,
                        removes_black_castling_rights_long: None,
                    },
                );
            }
        }
        let ghost after_short = moves@;
        if can_castle_long {
            let a = set_bit(0, king_starting_square - 1);
            let b = set_bit(0, king_starting_square - 2);
            let c = set_bit(0, king_starting_square - 3);
            let squares_should_be_empty = a | b | c;
            let is_intermediary_square_attacked = self.is_square_attacked(
                king_starting_square - 1,
                &their_color,
            );
            proof {
                lemma_and_nonzero(squares_should_be_empty, all);
                assert forall|t: int| has_bit(squares_should_be_empty, t) == (t == king_starting_square - 1 || t == king_starting_square - 2 || t == king_starting_square - 3) by {
                    lemma_has_bit_or(a, b, t);
                    lemma_has_bit_or(a | b, c, t);
                    lemma_has_bit_zero(t);
                }
                if (squares_should_be_empty & all) == 0 {
                    assert(has_bit(squares_should_be_empty, king_starting_square - 1));
                    assert(has_bit(squares_should_be_empty, king_starting_square - 2));
                    assert(has_bit(squares_should_be_empty, king_starting_square - 3));
                } else {
                    let t = choose|t: int| 0 <= t < 64 && has_bit(squares_should_be_empty, t) && #[trigger] has_bit(all, t);
                    assert(has_bit(squares_should_be_empty, t));
                }
                assert(((squares_should_be_empty & all) == 0 && !is_intermediary_square_attacked) == self.long_castle_open());
            }
            if (squares_should_be_empty & all) == 0 && !is_intermediary_square_attacked {
                moves.push(
                    Move {
                        from_square: source_square,
                        from_piece_type: Some(PieceType::King),
                        to_square: king_starting_square - 2,
                        to_piece_type: None,
                        last_en_passant_target_coord: self.en_passant_target,
                        next_en_passant_target_coord: None,
                        is_en_passant_capture: false,
                        pawn_promoting_to: None,
                        castle_side: Some(CastleSides::Long),
                        is_check: None,
                        removes_white_castling_rights_short: None,
                        removes_white_castling_rights_long: None,
                        removes_black_castling_rights_short: None,
                        removes_black_castling_rights_long: None,
                    },
                );
            }
        }
        proof {
            assert(their_color == self.them());
            if !can_castle_short {
                assert(!self.short_castle_open());
            }
            if !can_castle_long {
                assert(!self.long_castle_open());
            }
        }
        assert(moves@ =~= self.king_moves());
        moves
    }
}

/// A pawn move promoting to `piece`.
pub open spec fn promo_move(
    from: usize,
    to: usize,
    captured: Option<PieceType>,
    piece: PieceType,
    ep: Option<usize>,
) -> Move {
    Move { pawn_promoting_to: Some(piece), ..basic_move(from, PieceType::Pawn, to, captured, ep) }
}

/// The four promotions of a pawn move, queen, rook, bishop, knight.
pub open spec fn promotions(from: usize, to: usize, captured: Option<PieceType>, ep: Option<usize>) -> Seq<Move> {
    seq![
        promo_move(from, to, captured, PieceType::Queen, ep),
        promo_move(from, to, captured, PieceType::Rook, ep),
        promo_move(from, to, captured, PieceType::Bishop, ep),
        promo_move(from, to, captured, PieceType::Knight, ep),
    ]
}

impl<'a> ChessGame<'a> {
    /// The square a pawn of the side to move on `s` steps to.
    pub open spec fn pawn_step(&self, s: int) -> int {
        if self.white_to_move {
            s - 8
        } else {
            s + 8
        }
    }

    /// The last rank of the side to move's pawns.
    pub open spec fn on_promotion_rank(&self, t: int) -> bool {
        if self.white_to_move {
            0 <= t <= 7
        } else {
            56 <= t <= 63
        }
    }

    /// The starting rank of the side to move's pawns.
    pub open spec fn on_pawn_start_rank(&self, s: int) -> bool {
        if self.white_to_move {
            48 <= s <= 55
        } else {
            8 <= s <= 15
        }
    }

    /// No pawn of the side to move stands on its last rank, so each has a
    /// square in front of it.
    pub open spec fn pawns_can_step(&self) -> bool {
        forall|s: int|
            #[trigger] has_bit(self.pb()[self.our_offset()], s) ==> 0 <= self.pawn_step(s) < 64
    }

    /// Forward moves of the pawn on `s`: a single step to an empty square
    /// (as four promotions on the last rank), and from the starting rank a
    /// double step over two empty squares, which sets the en-passant target.
    pub open spec fn pawn_push_moves(&self, s: usize) -> Seq<Move> {
        let t1 = self.pawn_step(s as int);
        let t2 = self.pawn_step(t1);
        let ep = self.en_passant_target;
        if has_bit(self.occ(2), t1) {
            seq![]
        } else if self.on_promotion_rank(t1) {
            promotions(s, t1 as usize, None, ep)
        } else {
            seq![basic_move(s, PieceType::Pawn, t1 as usize, None, ep)] + if self.on_pawn_start_rank(
                s as int,
            ) && !has_bit(self.occ(2), t2) {
                seq![
                    Move {
                        next_en_passant_target_coord: Some(t1 as usize),
                        ..basic_move(s, PieceType::Pawn, t2 as usize, None, ep)
                    },
                ]
            } else {
                seq![]
            }
        }
    }

    /// The captures of a pawn on `from` landing on `to`.
    pub open spec fn pawn_capture_moves_to(&self, from: usize, to: usize) -> Seq<Move> {
        let captured = self.piece_type_at(to as int);
        if self.on_promotion_rank(to as int) {
            promotions(from, to, captured, self.en_passant_target)
        } else {
            seq![basic_move(from, PieceType::Pawn, to, captured, self.en_passant_target)]
        }
    }

    /// The squares a pawn of the side to move on `s` attacks.
    pub open spec fn pawn_attacks_from(&self, s: int) -> u64 {
        self.bitboard_constants.pawn_attacks@[self.us().spec_idx() as int]@[s]
    }

    /// Ordinary captures of the pawn on `s`, by target square.
    pub open spec fn pawn_capture_moves(&self, s: usize) -> Seq<Move> {
        bb_flat(self.pawn_attacks_from(s as int) & self.their_occ(), |t: usize| self.pawn_capture_moves_to(s, t))
    }

    /// The en-passant capture of the pawn on `s`, when it attacks the target.
    pub open spec fn pawn_ep_moves(&self, s: usize) -> Seq<Move> {
        match self.en_passant_target {
            Some(e) => if has_bit(self.pawn_attacks_from(s as int), e as int) {
                seq![
                    Move {
                        is_en_passant_capture: true,
                        ..basic_move(s, PieceType::Pawn, e, Some(PieceType::Pawn), self.en_passant_target)
                    },
                ]
            } else {
                seq![]
            },
            None => seq![],
        }
    }

    /// Pawn moves of the side to move, by pawn square: pushes, captures,
    /// then the en-passant capture.
    pub open spec fn pawn_moves(&self) -> Seq<Move> {
        bb_flat(
            self.pb()[self.our_offset()],
            |s: usize| self.pawn_push_moves(s) + self.pawn_capture_moves(s) + self.pawn_ep_moves(s),
        )
    }

    /// Appends the four promotions of a pawn move.
    fn push_promotions(&self, moves: &mut Vec<Move>, from: usize, to: usize, captured: Option<PieceType>)
        ensures
            final(moves)@ == old(moves)@ + promotions(from, to, captured, self.en_passant_target),
    {
        let ghost before = moves@;
        let base = Move {
            from_square: from,
            from_piece_type: Some(PieceType::Pawn),
            to_square: to,
            to_piece_type: captured,
            last_en_passant_target_coord: self.en_passant_target,
            next_en_passant_target_coord: None,
            is_en_passant_capture: false,
            pawn_promoting_to: Some(PieceType::Queen),
            castle_side: None,
            is_check: None,
            removes_white_castling_rights_short: None,
            removes_white_castling_rights_long: None,
            removes_black_castling_rights_short: None,
            removes_black_castling_rights_long: None,
        };
        moves.push(base);
        moves.push(Move { pawn_promoting_to: Some(PieceType::Rook), ..base });
        moves.push(Move { pawn_promoting_to: Some(PieceType::Bishop), ..base });
        moves.push(Move { pawn_promoting_to: Some(PieceType::Knight), ..base });
        assert(moves@ =~= before + promotions(from, to, captured, self.en_passant_target));
    }

    /// Appends the forward moves of the pawn on `s`.
    fn push_pawn_pushes(&self, moves: &mut Vec<Move>, s: usize)
        requires
            0 <= self.pawn_step(s as int) < 64,
        ensures
            final(moves)@ == old(moves)@ + self.pawn_push_moves(s),
    {
        let white = self.white_to_move;
        let all_occupancies = self.occupancy_bitboards[2];
        let target_square: usize = if white { s - 8 } else { s + 8 };
        let promotion_rank_lower: usize = if white { 0 } else { 56 };
        let promotion_rank_upper: usize = if white { 7 } else { 63 };
        let our_starting_rank_lower: usize = if white { 48 } else { 8 };
        let our_starting_rank_upper: usize = if white { 55 } else { 15 };
        let ghost before = moves@;
        if get_bit(all_occupancies, target_square) != 0 {
            assert(moves@ =~= before + self.pawn_push_moves(s));
            return;
        }
        if target_square >= promotion_rank_lower && target_square <= promotion_rank_upper {
            self.push_promotions(moves, s, target_square, None);
            return;
        }
        moves.push(
            Move {
                from_square: s,
                from_piece_type: Some(PieceType::Pawn),
                to_square: target_square,
                to_piece_type: None,
                last_en_passant_target_coord: self.en_passant_target,
                next_en_passant_target_coord: None,
                is_en_passant_capture: false,
                pawn_promoting_to: None,
                castle_side: None,
                is_check: None,
                removes_white_castling_rights_short: None,
                removes_white_castling_rights_long: None,
                removes_black_castling_rights_short: None,
                removes_black_castling_rights_long: None,
            },
        );
        let double_target: usize = if white { target_square - 8 } else { target_square + 8 };
        let is_occupied = get_bit(all_occupancies, double_target) != 0;
        if s >= our_starting_rank_lower && s <= our_starting_rank_upper && !is_occupied {
            moves.push(
                Move {
                    from_square: s,
                    from_piece_type: Some(PieceType::Pawn),
                    to_square: double_target,
                    to_piece_type: None,
                    last_en_passant_target_coord: self.en_passant_target,
                    next_en_passant_target_coord: Some(target_square),
                    is_en_passant_capture: false,
                    pawn_promoting_to: None,
                    castle_side: None,
                    is_check: None,
                    removes_white_castling_rights_short: None,
                    removes_white_castling_rights_long: None,
                    removes_black_castling_rights_short: None,
                    removes_black_castling_rights_long: None,
                },
            );
        }
        assert(moves@ =~= before + self.pawn_push_moves(s));
    }

    /// Appends the ordinary captures of the pawn on `s`.
    fn push_pawn_captures(&self, moves: &mut Vec<Move>, s: usize)
        requires
            self.occupancy_consistent(),
            self.bitboard_constants.shaped(),
            s < 64,
        ensures
            final(moves)@ == old(moves)@ + self.pawn_capture_moves(s),
    {
        let white = self.white_to_move;
        let us: usize = if white { 0 } else { 1 };
        let their_occupancies = if white {
            self.occupancy_bitboards[1]
        } else {
            self.occupancy_bitboards[0]
        };
        let promotion_rank_lower: usize = if white { 0 } else { 56 };
        let promotion_rank_upper: usize = if white { 7 } else { 63 };
        let mut attacks = self.bitboard_constants.pawn_attacks[us][s] & their_occupancies;
        let ghost f = |t: usize| self.pawn_capture_moves_to(s, t);
        let ghost start = moves@;
        proof {
            assert(us == self.us().spec_idx());
        }
        while attacks != 0
            invariant
                self.occupancy_consistent(),
                promotion_rank_lower == (if self.white_to_move { 0usize } else { 56usize }),
                promotion_rank_upper == (if self.white_to_move { 7usize } else { 63usize }),
                f == (|t: usize| self.pawn_capture_moves_to(s, t)),
                moves@ + bb_flat(attacks, f) == start + self.pawn_capture_moves(s),
            decreases attacks,
        {
            proof {
                lemma_pop_lsb(attacks);
            }
            let target_square = get_lsb_index(attacks).unwrap();
            let to_piece_type = self.get_piece_at_square(target_square).0;
            let ghost before = moves@;
            if target_square >= promotion_rank_lower && target_square <= promotion_rank_upper {
                self.push_promotions(moves, s, target_square, to_piece_type);
            } else {
                moves.push(
                    Move {
                        from_square: s,
                        from_piece_type: Some(PieceType::Pawn),
                        to_square: target_square,
                        to_piece_type: to_piece_type,
                        last_en_passant_target_coord: self.en_passant_target,
                        next_en_passant_target_coord: None,
                        is_en_passant_capture: false,
                        pawn_promoting_to: None,
                        castle_side: None,
                        is_check: None,
                        removes_white_castling_rights_short: None,
                        removes_white_castling_rights_long: None,
                        removes_black_castling_rights_short: None,
                        removes_black_castling_rights_long: None,
                    },
                );
            }
            assert(moves@ == before + f(target_square));
            assert(before + bb_flat(attacks, f) =~= moves@ + bb_flat(clear_lsb(attacks), f));
            attacks = pop_bit(attacks, target_square);
        }
        assert(moves@ + bb_flat(0, f) =~= moves@);
    }

    /// Appends the en-passant capture of the pawn on `s`, if it has one.
    fn push_pawn_en_passant(&self, moves: &mut Vec<Move>, s: usize)
        requires
            self.bitboard_constants.shaped(),
            s < 64,
            self.en_passant_target matches Some(e) ==> e < 64,
        ensures
            final(moves)@ == old(moves)@ + self.pawn_ep_moves(s),
    {
        let us: usize = if self.white_to_move { 0 } else { 1 };
        let ghost before = moves@;
        proof {
            assert(us == self.us().spec_idx());
        }
        match self.en_passant_target {
            Some(e) => {
                let target = set_bit(0, e);
                let attacks = self.bitboard_constants.pawn_attacks[us][s] & target;
                proof {
                    lemma_and_nonzero(self.pawn_attacks_from(s as int), target);
                    lemma_has_bit_zero(e as int);
                    assert(has_bit(target, e as int));
                    if attacks != 0 {
                        let t = choose|t: int| 0 <= t < 64 && has_bit(self.pawn_attacks_from(s as int), t) && #[trigger] has_bit(target, t);
                        lemma_has_bit_zero(t);
                    }
                }
                if attacks != 0 {
                    proof {
                        lemma_has_bit_zero(e as int);
                        assert(has_bit(self.pawn_attacks_from(s as int), e as int));
                    }
                    moves.push(
                        Move {
                            from_square: s,
                            from_piece_type: Some(PieceType::Pawn),
                            to_square: e,
                            to_piece_type: Some(PieceType::Pawn),
                            last_en_passant_target_coord: self.en_passant_target,
                            next_en_passant_target_coord: None,
                            is_en_passant_capture: true,
                            pawn_promoting_to: None,
                            castle_side: None,
                            is_check: None,
                            removes_white_castling_rights_short: None,
                            removes_white_castling_rights_long: None,
                            removes_black_castling_rights_short: None,
                            removes_black_castling_rights_long: None,
                        },
                    );
                }
            },
            None => {},
        }
        assert(moves@ =~= before + self.pawn_ep_moves(s));
    }

    /// The pawn moves of the side to move.
    pub fn get_moves_pawns(&self) -> (r: Vec<Move>)
        requires
            self.occupancy_consistent(),
            self.bitboard_constants.shaped(),
            self.pawns_can_step(),
            self.en_passant_target matches Some(e) ==> e < 64,
        ensures
            r@ == self.pawn_moves(),
    {
        let mut moves: Vec<Move> = Vec::new();
        let off: usize = if self.white_to_move { 0 } else { 6 };
        let mut pawns = self.piece_bitboards[off];
        let ghost f = |s: usize| self.pawn_push_moves(s) + self.pawn_capture_moves(s) + self.pawn_ep_moves(s);
        while pawns != 0
            invariant
                self.occupancy_consistent(),
                self.bitboard_constants.shaped(),
                self.pawns_can_step(),
                self.en_passant_target matches Some(e) ==> e < 64,
                off == self.our_offset(),
                forall|s: int| #[trigger] has_bit(pawns, s) ==> has_bit(self.pb()[off as int], s),
                f == (|s: usize| self.pawn_push_moves(s) + self.pawn_capture_moves(s) + self.pawn_ep_moves(s)),
                moves@ + bb_flat(pawns, f) == bb_flat(self.pb()[off as int], f),
            decreases pawns,
        {
            proof {
                lemma_pop_lsb(pawns);
            }
            let source_square = get_lsb_index(pawns).unwrap();
            proof {
                assert(has_bit(self.pb()[off as int], source_square as int));
            }
            let ghost before = moves@;
            self.push_pawn_pushes(&mut moves, source_square);
            self.push_pawn_captures(&mut moves, source_square);
            self.push_pawn_en_passant(&mut moves, source_square);
            assert(moves@ =~= before + f(source_square));
            assert(before + bb_flat(pawns, f) =~= moves@ + bb_flat(clear_lsb(pawns), f));
            pawns = pop_bit(pawns, source_square);
        }
        assert(moves@ + bb_flat(0, f) =~= moves@);
        moves
    }
}

/// A move listed for a board comes from one of its squares.
pub proof fn lemma_bb_moves_member(bb: u64, f: spec_fn(usize) -> Move, m: Move)
    requires
        bb_moves(bb, f).contains(m),
    ensures
        exists|t: int| 0 <= t < 64 && #[trigger] has_bit(bb, t) && m == f(t as usize),
    decreases bb,
{
    lemma_pop_lsb(bb);
    let l = lsb(bb) as int;
    let rest = bb_moves(clear_lsb(bb), f);
    assert(bb_moves(bb, f) == seq![f(l as usize)] + rest);
    if m == f(l as usize) {
        assert(has_bit(bb, l));
    } else {
        assert(rest.contains(m)) by {
            let i = choose|i: int| 0 <= i < bb_moves(bb, f).len() && bb_moves(bb, f)[i] == m;
            assert(rest[i - 1] == m);
        }
        lemma_bb_moves_member(clear_lsb(bb), f, m);
        let t = choose|t: int| 0 <= t < 64 && #[trigger] has_bit(clear_lsb(bb), t) && m == f(t as usize);
        lemma_lsb(bb);
        crate::bitlemmas::lemma_has_bit_and(bb, !(1u64 << (lsb(bb) as u64)), t);
        assert(has_bit(bb, t));
    }
}

/// A move listed for a board comes from the list of one of its squares.
pub proof fn lemma_bb_flat_member(bb: u64, f: spec_fn(usize) -> Seq<Move>, m: Move)
    requires
        bb_flat(bb, f).contains(m),
    ensures
        exists|s: int| 0 <= s < 64 && #[trigger] has_bit(bb, s) && f(s as usize).contains(m),
    decreases bb,
{
    lemma_pop_lsb(bb);
    let l = lsb(bb) as int;
    let head = f(l as usize);
    let rest = bb_flat(clear_lsb(bb), f);
    assert(bb_flat(bb, f) == head + rest);
    let i = choose|i: int| 0 <= i < bb_flat(bb, f).len() && bb_flat(bb, f)[i] == m;
    if i < head.len() {
        assert(head[i] == m);
        assert(has_bit(bb, l));
    } else {
        assert(rest[i - head.len()] == m);
        lemma_bb_flat_member(clear_lsb(bb), f, m);
        let s = choose|s: int| 0 <= s < 64 && #[trigger] has_bit(clear_lsb(bb), s) && f(s as usize).contains(m);
        lemma_lsb(bb);
        crate::bitlemmas::lemma_has_bit_and(bb, !(1u64 << (lsb(bb) as u64)), s);
        assert(has_bit(bb, s));
    }
}

impl<'a> ChessGame<'a> {
    /// Every move of the side to move by the piece movement rules, queens,
    /// rooks, bishops, knights, king, then pawns.
    pub open spec fn pseudo_moves(&self) -> Seq<Move> {
        self.slider_moves(PieceType::Queen) + self.slider_moves(PieceType::Rook)
            + self.slider_moves(PieceType::Bishop) + self.knight_moves() + self.king_moves()
            + self.pawn_moves()
    }

    /// The moves of the side to move by the piece movement rules, including
    /// those that leave its own king attacked.
    pub fn get_psuedo_legal_moves(&self) -> (r: Vec<Move>)
        requires
            self.occupancy_consistent(),
            self.bitboard_constants.tables_correct(),
            self.pawns_can_step(),
            self.en_passant_target matches Some(e) ==> e < 64,
        ensures
            r@ == self.pseudo_moves(),
    {
        let mut moves: Vec<Move> = Vec::new();
        let mut queen = self.get_moves_slider(PieceType::Queen);
        let mut rook = self.get_moves_slider(PieceType::Rook);
        let mut bishop = self.get_moves_slider(PieceType::Bishop);
        let mut knight = self.get_moves_knight();
        let mut king = self.get_moves_king();
        let mut pawns = self.get_moves_pawns();
        moves.append(&mut queen);
        moves.append(&mut rook);
        moves.append(&mut bishop);
        moves.append(&mut knight);
        moves.append(&mut king);
        moves.append(&mut pawns);
        assert(moves@ =~= self.pseudo_moves());
        moves
    }
}

} // verus!
