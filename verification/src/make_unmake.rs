//! Making and taking back moves.
use vstd::prelude::*;
use crate::castle_sides::CastleSides;
use crate::chess_game::ChessGame;
use crate::chess_move::Move;
use crate::helpers::{set_bit, pop_bit};
use crate::piece_type::PieceType;
use crate::legal_moves::{lemma_legal_move_keeps_playable, lemma_same_board_same_moves};
use crate::position::{
    Position, move_in_range, zobrist_delta, make_position, unmake_position, made_pb, made_occ, made_pb_mover, made_pb_capture, made_pb_castle,
    made_occ_mover, made_occ_capture, made_occ_castle,
    unmade_pb, unmade_occ, unmade_pb_mover, unmade_pb_capture, unmade_pb_castle,
    unmade_occ_mover, unmade_occ_capture, unmade_occ_castle, setb, clrb, side_off, side_occ, mover_board, dest_board, captured_board,
    captured_square, rook_from, rook_to, is_promotion, is_ep_capture, key, key_if,
};

verus! {

/// `b` with square `s` added.
fn add_square(b: u64, s: usize) -> (r: u64)
    requires
        s < 64,
    ensures
        r == setb(b, s as int),
{
    set_bit(b, s)
}

/// `b` with square `s` removed.
fn remove_square(b: u64, s: usize) -> (r: u64)
    requires
        s < 64,
    ensures
        r == clrb(b, s as int),
{
    pop_bit(b, s)
}

/// Moves the moving piece of `m` (made by `white`), promoting it if asked.
fn move_mover(pb: &mut [u64; 12], occ: &mut [u64; 3], m: &Move, white: bool)
    requires
        move_in_range(*m, white),
    ensures
        final(pb)@ == made_pb_mover(old(pb)@, *m, white),
        final(occ)@ == made_occ_mover(old(occ)@, *m, white),
{
    let source_piece = m.from_piece_type.unwrap();
    let our_off: usize = if white { 0 } else { 6 };
    let our_occ: usize = if white { 0 } else { 1 };
    let from = m.from_square;
    let to = m.to_square;
    let mover: usize = our_off + source_piece.bitboard_index();
    let dest: usize = match m.pawn_promoting_to {
        Some(pr) => if source_piece == PieceType::Pawn {
            our_off + pr.bitboard_index()
        } else {
            mover
        },
        None => mover,
    };
    proof {
        assert(mover == mover_board(*m, white));
        assert(dest == dest_board(*m, white));
    }
    pb[mover] = remove_square(pb[mover], from);
    pb[dest] = add_square(pb[dest], to);
    occ[our_occ] = remove_square(occ[our_occ], from);
    occ[our_occ] = add_square(occ[our_occ], to);
    occ[2] = remove_square(occ[2], from);
}

/// Removes the piece that `m` (made by `white`) captures, or fills the
/// destination when it captures nothing.
fn move_capture(pb: &mut [u64; 12], occ: &mut [u64; 3], m: &Move, white: bool)
    requires
        move_in_range(*m, white),
    ensures
        final(pb)@ == made_pb_capture(old(pb)@, *m, white),
        final(occ)@ == made_occ_capture(old(occ)@, *m, white),
{
    let their_off: usize = if white { 6 } else { 0 };
    let their_occ: usize = if white { 1 } else { 0 };
    let to = m.to_square;
    match m.to_piece_type {
        None => {
            occ[2] = add_square(occ[2], to);
        },
        Some(their_piece) => {
            let their_board: usize = their_off + their_piece.bitboard_index();
            if their_piece == PieceType::Pawn && m.is_en_passant_capture {
                // The capturing pawn lands on an empty square; the captured
                // pawn stands behind it.
                occ[2] = add_square(occ[2], to);
                let captured: usize = if white {
                    to + 8
                } else {
                    to - 8
                };
                pb[their_board] = remove_square(pb[their_board], captured);
                occ[their_occ] = remove_square(occ[their_occ], captured);
                occ[2] = remove_square(occ[2], captured);
            } else {
                pb[their_board] = remove_square(pb[their_board], to);
                occ[their_occ] = remove_square(occ[their_occ], to);
            }
        },
    }
}

/// Moves the rook of a castling move `m` (made by `white`).
fn move_castle(pb: &mut [u64; 12], occ: &mut [u64; 3], m: &Move, white: bool)
    requires
        move_in_range(*m, white),
    ensures
        final(pb)@ == made_pb_castle(old(pb)@, *m, white),
        final(occ)@ == made_occ_castle(old(occ)@, *m, white),
{
    let our_off: usize = if white { 0 } else { 6 };
    let our_occ: usize = if white { 0 } else { 1 };
    let from = m.from_square;
    match m.castle_side {
        None => {},
        Some(side) => {
            let rook_from_square: usize = match side {
                CastleSides::Short => from + 3,
                CastleSides::Long => from - 4,
            };
            let rook_to_square: usize = match side {
                CastleSides::Short => from + 1,
                CastleSides::Long => from - 1,
            };
            let rook_board: usize = our_off + 3;
            pb[rook_board] = remove_square(pb[rook_board], rook_from_square);
            pb[rook_board] = add_square(pb[rook_board], rook_to_square);
            occ[our_occ] = remove_square(occ[our_occ], rook_from_square);
            occ[our_occ] = add_square(occ[our_occ], rook_to_square);
            occ[2] = remove_square(occ[2], rook_from_square);
            occ[2] = add_square(occ[2], rook_to_square);
        },
    }
}

/// Returns the moving piece of `m` (made by `white`) to its square.
fn unmove_mover(pb: &mut [u64; 12], occ: &mut [u64; 3], m: &Move, white: bool)
    requires
        move_in_range(*m, white),
    ensures
        final(pb)@ == unmade_pb_mover(old(pb)@, *m, white),
        final(occ)@ == unmade_occ_mover(old(occ)@, *m, white),
{
    let source_piece = m.from_piece_type.unwrap();
    let our_off: usize = if white { 0 } else { 6 };
    let our_occ: usize = if white { 0 } else { 1 };
    let from = m.from_square;
    let to = m.to_square;
    let mover: usize = our_off + source_piece.bitboard_index();
    let dest: usize = match m.pawn_promoting_to {
        Some(pr) => if source_piece == PieceType::Pawn {
            our_off + pr.bitboard_index()
        } else {
            mover
        },
        None => mover,
    };
    proof {
        assert(mover == mover_board(*m, white));
        assert(dest == dest_board(*m, white));
    }
    if source_piece == PieceType::Pawn {
        // The pawn returns; a promoted piece disappears.
        pb[mover] = add_square(pb[mover], from);
        pb[dest] = remove_square(pb[dest], to);
    } else {
        pb[mover] = remove_square(pb[mover], to);
        pb[mover] = add_square(pb[mover], from);
    }
    occ[our_occ] = remove_square(occ[our_occ], to);
    occ[our_occ] = add_square(occ[our_occ], from);
    occ[2] = add_square(occ[2], from);
}

/// Returns the piece that `m` (made by `white`) captured, or empties the
/// destination when it captured nothing.
fn unmove_capture(pb: &mut [u64; 12], occ: &mut [u64; 3], m: &Move, white: bool)
    requires
        move_in_range(*m, white),
    ensures
        final(pb)@ == unmade_pb_capture(old(pb)@, *m, white),
        final(occ)@ == unmade_occ_capture(old(occ)@, *m, white),
{
    let their_off: usize = if white { 6 } else { 0 };
    let their_occ: usize = if white { 1 } else { 0 };
    let to = m.to_square;
    match m.to_piece_type {
        None => {
            occ[2] = remove_square(occ[2], to);
        },
        Some(their_piece) => {
            let their_board: usize = their_off + their_piece.bitboard_index();
            if their_piece == PieceType::Pawn && m.is_en_passant_capture {
                occ[2] = remove_square(occ[2], to);
                let captured: usize = if white {
                    to + 8
                } else {
                    to - 8
                };
                pb[their_board] = add_square(pb[their_board], captured);
                occ[their_occ] = add_square(occ[their_occ], captured);
                occ[2] = add_square(occ[2], captured);
            } else {
                pb[their_board] = add_square(pb[their_board], to);
                occ[their_occ] = add_square(occ[their_occ], to);
            }
        },
    }
}

/// Returns the rook of a castling move `m` (made by `white`).
fn unmove_castle(pb: &mut [u64; 12], occ: &mut [u64; 3], m: &Move, white: bool)
    requires
        move_in_range(*m, white),
    ensures
        final(pb)@ == unmade_pb_castle(old(pb)@, *m, white),
        final(occ)@ == unmade_occ_castle(old(occ)@, *m, white),
{
    let our_off: usize = if white { 0 } else { 6 };
    let our_occ: usize = if white { 0 } else { 1 };
    let from = m.from_square;
    match m.castle_side {
        None => {},
        Some(side) => {
            let rook_from_square: usize = match side {
                CastleSides::Short => from + 3,
                CastleSides::Long => from - 4,
            };
            let rook_to_square: usize = match side {
                CastleSides::Short => from + 1,
                CastleSides::Long => from - 1,
            };
            let rook_board: usize = our_off + 3;
            pb[rook_board] = add_square(pb[rook_board], rook_from_square);
            pb[rook_board] = remove_square(pb[rook_board], rook_to_square);
            occ[our_occ] = add_square(occ[our_occ], rook_from_square);
            occ[our_occ] = remove_square(occ[our_occ], rook_to_square);
            occ[2] = add_square(occ[2], rook_from_square);
            occ[2] = remove_square(occ[2], rook_to_square);
        },
    }
}

impl<'a> ChessGame<'a> {
    /// The part of the game that moves change.
    pub open spec fn position(&self) -> Position {
        Position {
            pb: self.piece_bitboards@,
            occ: self.occupancy_bitboards@,
            white_to_move: self.white_to_move,
            can_white_castle_long: self.can_white_castle_long,
            can_white_castle_short: self.can_white_castle_short,
            can_black_castle_long: self.can_black_castle_long,
            can_black_castle_short: self.can_black_castle_short,
            en_passant_target: self.en_passant_target,
            zobrist_hash: self.zobrist_hash,
        }
    }

    /// The combined hash keys that making (or taking back) `m` toggles, when
    /// the side `white` makes it.
    fn move_hash_delta(&self, m: &Move, white: bool) -> (r: u64)
        requires
            self.bitboard_constants.shaped(),
            move_in_range(*m, white),
        ensures
            r == zobrist_delta(self.bitboard_constants, *m, white),
    {
        let k = self.bitboard_constants;
        let off: usize = if white { 0 } else { 6 };
        let their_off: usize = if white { 6 } else { 0 };
        let from = m.from_square;
        let to = m.to_square;
        let source_piece = m.from_piece_type.unwrap();
        let mover: usize = off + source_piece.bitboard_index();
        let dest: usize = match m.pawn_promoting_to {
            Some(p) => if source_piece == PieceType::Pawn {
                off + p.bitboard_index()
            } else {
                mover
            },
            None => mover,
        };
        proof {
            assert(mover == mover_board(*m, white));
            assert(dest == dest_board(*m, white));
        }
        let mut delta: u64 = k.zobrist_table[mover][from];
        delta = delta ^ k.zobrist_table[dest][to];
        let ghost d2 = delta;
        match m.to_piece_type {
            Some(their_piece) => {
                let captured: usize = if their_piece == PieceType::Pawn && m.is_en_passant_capture {
                    if white {
                        to + 8
                    } else {
                        to - 8
                    }
                } else {
                    to
                };
                proof {
                    assert(captured == captured_square(*m, white));
                }
                delta = delta ^ k.zobrist_table[their_off + their_piece.bitboard_index()][captured];
            },
            None => {
                proof { crate::bitlemmas::lemma_bit_identities(); }
            },
        }
        let ghost d3 = delta;
        assert(d3 == d2 ^ key_if(
            m.to_piece_type is Some,
            key(k, captured_board(*m, white), captured_square(*m, white)),
        ));
        match m.castle_side {
            Some(side) => {
                let rook_from_square: usize = match side {
                    CastleSides::Short => from + 3,
                    CastleSides::Long => from - 4,
                };
                let rook_to_square: usize = match side {
                    CastleSides::Short => from + 1,
                    CastleSides::Long => from - 1,
                };
                delta = delta ^ k.zobrist_table[off + 3][rook_from_square];
                delta = delta ^ k.zobrist_table[off + 3][rook_to_square];
            },
            None => {
                proof { crate::bitlemmas::lemma_bit_identities(); }
            },
        }
        let ghost d5 = delta;
        assert(d5 == d3 ^ key_if(m.castle_side is Some, key(k, side_off(white) + 3, rook_from(*m)))
            ^ key_if(m.castle_side is Some, key(k, side_off(white) + 3, rook_to(*m))));
        if m.removes_white_castling_rights_short == Some(true) {
            delta = delta ^ k.zobrist_castling_rights[0];
        } else {
            proof { crate::bitlemmas::lemma_bit_identities(); }
        }
        if m.removes_white_castling_rights_long == Some(true) {
            delta = delta ^ k.zobrist_castling_rights[1];
        } else {
            proof { crate::bitlemmas::lemma_bit_identities(); }
        }
        if m.removes_black_castling_rights_short == Some(true) {
            delta = delta ^ k.zobrist_castling_rights[2];
        } else {
            proof { crate::bitlemmas::lemma_bit_identities(); }
        }
        if m.removes_black_castling_rights_long == Some(true) {
            delta = delta ^ k.zobrist_castling_rights[3];
        } else {
            proof { crate::bitlemmas::lemma_bit_identities(); }
        }
        match m.next_en_passant_target_coord {
            Some(square) => {
                delta = delta ^ k.zobrist_en_passant[square % 8];
            },
            None => {
                proof { crate::bitlemmas::lemma_bit_identities(); }
            },
        }
        match m.last_en_passant_target_coord {
            Some(square) => {
                delta = delta ^ k.zobrist_en_passant[square % 8];
            },
            None => {
                proof { crate::bitlemmas::lemma_bit_identities(); }
            },
        }
        delta ^ k.zobrist_to_move
    }

    /// Moves the pieces of `m` on the piece and occupancy bitboards.
    fn move_pieces(&mut self, m: &Move)
        requires
            move_in_range(*m, old(self).white_to_move),
        ensures
            final(self).piece_bitboards@ == made_pb(old(self).position(), *m),
            final(self).occupancy_bitboards@ == made_occ(old(self).position(), *m),
            final(self).bitboard_constants == old(self).bitboard_constants,
            final(self).zobrist_hash == old(self).zobrist_hash,
            final(self).transposition_table == old(self).transposition_table,
            final(self).en_passant_target == old(self).en_passant_target,
            final(self).white_to_move == old(self).white_to_move,
            final(self).can_white_castle_long == old(self).can_white_castle_long,
            final(self).can_white_castle_short == old(self).can_white_castle_short,
            final(self).can_black_castle_long == old(self).can_black_castle_long,
            final(self).can_black_castle_short == old(self).can_black_castle_short,
            final(self).legal_moves == old(self).legal_moves,
            final(self).debug_minimax_calls == old(self).debug_minimax_calls,
            final(self).debug_mimimax_moves_made == old(self).debug_mimimax_moves_made,
    {
        let white = self.white_to_move;
        move_mover(&mut self.piece_bitboards, &mut self.occupancy_bitboards, m, white);
        move_capture(&mut self.piece_bitboards, &mut self.occupancy_bitboards, m, white);
        move_castle(&mut self.piece_bitboards, &mut self.occupancy_bitboards, m, white);
    }

    /// Puts the pieces of `m` back, `white` being the side that made it.
    fn unmove_pieces(&mut self, m: &Move, white: bool)
        requires
            move_in_range(*m, white),
        ensures
            final(self).piece_bitboards@ == unmade_pb(old(self).position(), *m, white),
            final(self).occupancy_bitboards@ == unmade_occ(old(self).position(), *m, white),
            final(self).bitboard_constants == old(self).bitboard_constants,
            final(self).zobrist_hash == old(self).zobrist_hash,
            final(self).transposition_table == old(self).transposition_table,
            final(self).en_passant_target == old(self).en_passant_target,
            final(self).white_to_move == old(self).white_to_move,
            final(self).can_white_castle_long == old(self).can_white_castle_long,
            final(self).can_white_castle_short == old(self).can_white_castle_short,
            final(self).can_black_castle_long == old(self).can_black_castle_long,
            final(self).can_black_castle_short == old(self).can_black_castle_short,
            final(self).legal_moves == old(self).legal_moves,
            final(self).debug_minimax_calls == old(self).debug_minimax_calls,
            final(self).debug_mimimax_moves_made == old(self).debug_mimimax_moves_made,
    {
        unmove_mover(&mut self.piece_bitboards, &mut self.occupancy_bitboards, m, white);
        unmove_capture(&mut self.piece_bitboards, &mut self.occupancy_bitboards, m, white);
        unmove_castle(&mut self.piece_bitboards, &mut self.occupancy_bitboards, m, white);
    }

    /// Makes `this_move` for the side to move: moves the pieces, removes a
    /// captured piece, moves the rook of a castling move, drops the castling
    /// rights the move forfeits, sets the en-passant target, passes the turn
    /// and updates the hash.
    pub fn make_move(&mut self, this_move: &Move, update_legal_moves: bool)
        requires
            old(self).bitboard_constants.shaped(),
            move_in_range(*this_move, old(self).white_to_move),
            update_legal_moves ==> old(self).playable() && old(self).legal_moves_spec().contains(
                *this_move,
            ),
        ensures
            final(self).position() == make_position(
                old(self).position(),
                *this_move,
                old(self).bitboard_constants,
            ),
            final(self).bitboard_constants == old(self).bitboard_constants,
            final(self).transposition_table == old(self).transposition_table,
            final(self).debug_minimax_calls == old(self).debug_minimax_calls,
            final(self).debug_mimimax_moves_made == old(self).debug_mimimax_moves_made,
            !update_legal_moves ==> final(self).legal_moves == old(self).legal_moves,
            update_legal_moves ==> final(self).playable() && final(self).legal_moves@
                == final(self).legal_moves_spec(),
        decreases
            if update_legal_moves { 5int } else { 0int },
    {
        let ghost g0 = *self;
        let white = self.white_to_move;
        let delta = self.move_hash_delta(this_move, white);
        self.move_pieces(this_move);
        if this_move.removes_white_castling_rights_short == Some(true) {
            self.can_white_castle_short = false;
        }
        if this_move.removes_white_castling_rights_long == Some(true) {
            self.can_white_castle_long = false;
        }
        if this_move.removes_black_castling_rights_short == Some(true) {
            self.can_black_castle_short = false;
        }
        if this_move.removes_black_castling_rights_long == Some(true) {
            self.can_black_castle_long = false;
        }
        self.en_passant_target = this_move.next_en_passant_target_coord;
        self.white_to_move = !self.white_to_move;
        self.zobrist_hash = self.zobrist_hash ^ delta;
        if update_legal_moves {
            self.refresh_after_move(Ghost(g0), *this_move);
        }
    }

    /// Recomputes the legal moves after the legal move `m` of `g0` was made.
    fn refresh_after_move(&mut self, Ghost(g0): Ghost<ChessGame<'a>>, m: Move)
        requires
            g0.playable(),
            g0.legal_moves_spec().contains(m),
            old(self).position() == g0.after(m),
            old(self).bitboard_constants == g0.bitboard_constants,
        ensures
            final(self).playable(),
            final(self).legal_moves@ == final(self).legal_moves_spec(),
            *final(self) == (ChessGame { legal_moves: final(self).legal_moves, ..*old(self) }),
        decreases 4int,
    {
        proof {
            lemma_legal_move_keeps_playable(&g0, m, self);
        }
        let ghost mid = *self;
        self.set_legal_moves(None);
        proof {
            lemma_same_board_same_moves(self, &mid);
        }
    }

    /// Takes back `this_move`, made by the side not to move: the inverse of
    /// each step of `make_move`, restoring the forfeited castling rights and
    /// the previous en-passant target.
    pub fn unmake_move(&mut self, this_move: &Move)
        requires
            old(self).bitboard_constants.shaped(),
            move_in_range(*this_move, !old(self).white_to_move),
        ensures
            final(self).position() == unmake_position(
                old(self).position(),
                *this_move,
                old(self).bitboard_constants,
            ),
            final(self).bitboard_constants == old(self).bitboard_constants,
            final(self).transposition_table == old(self).transposition_table,
            final(self).legal_moves == old(self).legal_moves,
            final(self).debug_minimax_calls == old(self).debug_minimax_calls,
            final(self).debug_mimimax_moves_made == old(self).debug_mimimax_moves_made,
    {
        let white = !self.white_to_move;
        let delta = self.move_hash_delta(this_move, white);
        self.unmove_pieces(this_move, white);
        if this_move.removes_white_castling_rights_short == Some(true) {
            self.can_white_castle_short = true;
        }
        if this_move.removes_white_castling_rights_long == Some(true) {
            self.can_white_castle_long = true;
        }
        if this_move.removes_black_castling_rights_short == Some(true) {
            self.can_black_castle_short = true;
        }
        if this_move.removes_black_castling_rights_long == Some(true) {
            self.can_black_castle_long = true;
        }
        self.en_passant_target = this_move.last_en_passant_target_coord;
        self.white_to_move = !self.white_to_move;
        self.zobrist_hash = self.zobrist_hash ^ delta;
    }
}

} // verus!
