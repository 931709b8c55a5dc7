//! What a playable position is, and why the generated moves can be made and
//! taken back in it.
use vstd::prelude::*;
use crate::chess_game::{ChessGame, first_board_from, side_union, piece_attacks, kind_attacks};
use crate::chess_move::Move;
use crate::color::Color;
use crate::helpers::{has_bit, lsb, clear_lsb};
use crate::piece_type::PieceType;
use crate::castle_sides::CastleSides;
use crate::movegen::castle_move;
use crate::position::{position_consistent, lemma_consistent_bits, move_in_range, move_fits};
use crate::movegen::{lemma_bb_moves_member, lemma_bb_flat_member};
use crate::bitlemmas::{lemma_has_bit_and, lemma_has_bit_not};

verus! {

/// A board with exactly one square.
pub open spec fn single_square(b: u64) -> bool {
    b != 0 && clear_lsb(b) == 0
}

impl<'a> ChessGame<'a> {
    /// Offset of the piece bitboards of the side not to move.
    pub open spec fn their_offset(&self) -> int {
        if self.white_to_move {
            6
        } else {
            0
        }
    }

    /// The square of the king of the side with piece offset `off`.
    pub open spec fn king_square(&self, off: int) -> int {
        lsb(self.pb()[off + 5]) as int
    }

    /// The en-passant target, if any, is the empty square just passed by a
    /// pawn of the side not to move that has advanced two squares.
    pub open spec fn en_passant_valid(&self) -> bool {
        match self.en_passant_target {
            Some(e) => if self.white_to_move {
                16 <= e <= 23 && !has_bit(self.occ(2), e as int) && has_bit(self.pb()[6], e + 8)
            } else {
                40 <= e <= 47 && !has_bit(self.occ(2), e as int) && has_bit(self.pb()[0], e - 8)
            },
            None => true,
        }
    }

    /// A castling right is held only while the king and that rook stand on
    /// their starting squares.
    pub open spec fn castling_rights_valid(&self) -> bool {
        &&& self.can_white_castle_short ==> self.king_square(0) == 60 && has_bit(self.pb()[3], 63)
        &&& self.can_white_castle_long ==> self.king_square(0) == 60 && has_bit(self.pb()[3], 56)
        &&& self.can_black_castle_short ==> self.king_square(6) == 4 && has_bit(self.pb()[9], 7)
        &&& self.can_black_castle_long ==> self.king_square(6) == 4 && has_bit(self.pb()[9], 0)
    }

    /// A position that the engine can play from: the constant tables are
    /// right, occupancies agree with the pieces, no two pieces share a
    /// square, each side has one king, no pawn stands on the rank it would
    /// step off, castling rights and the en-passant target fit the board,
    /// and the side that just moved has not left its king attacked.
    #[verifier::opaque]
    pub open spec fn playable(&self) -> bool {
        &&& self.bitboard_constants.tables_correct()
        &&& self.occupancy_consistent()
        &&& self.pieces_disjoint()
        &&& single_square(self.pb()[5])
        &&& single_square(self.pb()[11])
        &&& forall|s: int| #[trigger] has_bit(self.pb()[0], s) ==> s >= 8
        &&& forall|s: int| #[trigger] has_bit(self.pb()[6], s) ==> s < 56
        &&& self.castling_rights_valid()
        &&& self.en_passant_valid()
        &&& !self.attacked_by(self.king_square(self.their_offset()), self.us())
    }
}

/// In a consistent position, the first board holding a square is the only one.
pub proof fn lemma_piece_on(g: &ChessGame, i: int, t: int)
    requires
        g.pieces_disjoint(),
        0 <= i < 12,
        has_bit(g.pb()[i], t),
    ensures
        g.board_at(t) == Some(i),
        g.piece_type_at(t) == Some(PieceType::spec_from_index(i)),
        PieceType::spec_from_index(i).spec_index() == i % 6,
{
    lemma_piece_on_from(g, i, t, 0);
}

proof fn lemma_piece_on_from(g: &ChessGame, i: int, t: int, j: int)
    requires
        g.pieces_disjoint(),
        0 <= j <= i < 12,
        has_bit(g.pb()[i], t),
    ensures
        first_board_from(g.pb(), t, j) == Some(i),
    decreases i - j,
{
    if j < i {
        crate::bitlemmas::lemma_has_bit_and(g.pb()[j], g.pb()[i], t);
        crate::bitlemmas::lemma_has_bit_zero(t);
        assert(g.pb()[j] & g.pb()[i] == 0);
        assert(!has_bit(g.pb()[j], t));
        lemma_piece_on_from(g, i, t, j + 1);
    }
}

/// The game's boards form a consistent position.
pub proof fn lemma_game_consistent(g: &ChessGame)
    requires
        g.occupancy_consistent(),
        g.pieces_disjoint(),
    ensures
        position_consistent(g.position()),
{
    assert(g.pb().len() == 12);
}

impl<'a> ChessGame<'a> {
    /// `m` with the castling rights it forfeits recorded: moving the king
    /// gives up both of the mover's rights, moving a rook off its starting
    /// corner the right on that side, and capturing the opponent's rook on
    /// its starting corner takes away the opponent's right on that side.
    pub open spec fn annotate(&self, m: Move) -> Move {
        let white = self.white_to_move;
        let king = m.from_piece_type == Some(PieceType::King);
        let rook = m.from_piece_type == Some(PieceType::Rook);
        let cap_rook = m.to_piece_type == Some(PieceType::Rook);
        let to = m.to_square;
        let ws = if white {
            self.can_white_castle_short && (king || (rook && m.from_square == 63))
        } else {
            cap_rook && self.can_white_castle_short && to == 63
        };
        let wl = if white {
            self.can_white_castle_long && (king || (rook && m.from_square == 56))
        } else {
            cap_rook && !(self.can_white_castle_short && to == 63) && self.can_white_castle_long
                && to == 56
        };
        let bs = if white {
            cap_rook && self.can_black_castle_short && to == 7
        } else {
            self.can_black_castle_short && (king || (rook && m.from_square == 7))
        };
        let bl = if white {
            cap_rook && !(self.can_black_castle_short && to == 7) && self.can_black_castle_long
                && to == 0
        } else {
            self.can_black_castle_long && (king || (rook && m.from_square == 0))
        };
        Move {
            removes_white_castling_rights_short: Some(ws),
            removes_white_castling_rights_long: Some(wl),
            removes_black_castling_rights_short: Some(bs),
            removes_black_castling_rights_long: Some(bl),
            ..m
        }
    }
}

/// Facts about the kind of a generated move that making it relies on: a
/// pawn that does not promote stays off its last rank, only pawns promote,
/// only a double pawn step over an empty square sets an en-passant target,
/// castling is a king move from its starting square over empty squares
/// (two towards the short side, three towards the long side), and a king is
/// only ever captured when it is attacked.
pub open spec fn move_shape(g: &ChessGame, m: Move) -> bool {
    &&& m.from_piece_type == Some(PieceType::Pawn) && m.pawn_promoting_to is None
        ==> !g.on_promotion_rank(m.to_square as int)
    &&& m.pawn_promoting_to is Some ==> m.from_piece_type == Some(PieceType::Pawn)
    &&& m.next_en_passant_target_coord is Some ==> {
        let e = m.next_en_passant_target_coord->0 as int;
        &&& m.from_piece_type == Some(PieceType::Pawn)
        &&& g.on_pawn_start_rank(m.from_square as int)
        &&& e == g.pawn_step(m.from_square as int)
        &&& m.to_square == g.pawn_step(e)
        &&& crate::position::square_empty(g.position(), e)
        &&& m.to_piece_type is None && m.castle_side is None && m.pawn_promoting_to is None
    }
    &&& m.castle_side is Some ==> m.from_piece_type == Some(PieceType::King) && m.from_square
        == g.king_start()
    &&& m.castle_side == Some(crate::castle_sides::CastleSides::Short) ==> !has_bit(g.occ(2), m.from_square + 1)
        && !has_bit(g.occ(2), m.from_square + 2)
    &&& m.castle_side == Some(crate::castle_sides::CastleSides::Long) ==> !has_bit(g.occ(2), m.from_square - 1)
        && !has_bit(g.occ(2), m.from_square - 2) && !has_bit(g.occ(2), m.from_square - 3)
    &&& m.to_piece_type == Some(PieceType::King) ==> g.attacked_by(m.to_square as int, g.us())
}

/// Recording forfeited rights keeps a move fitting its position.
pub proof fn lemma_annotate_fits(g: &ChessGame, m: Move)
    requires
        move_in_range(m, g.white_to_move),
        move_fits(g.position(), m),
        move_shape(g, m),
    ensures
        move_in_range(g.annotate(m), g.white_to_move),
        move_fits(g.position(), g.annotate(m)),
        move_shape(g, g.annotate(m)),
{
}

/// A quiet move or a capture of `piece` from `s` to a square of `attacks`
/// fits a playable position when `piece` stands on `s`.
pub proof fn lemma_attacked_moves_fit(g: &ChessGame, s: usize, piece: PieceType, attacks: u64, m: Move)
    requires
        g.playable(),
        has_bit(g.pb()[g.our_offset() + piece.spec_index()], s as int),
        piece != PieceType::Pawn,
        forall|t: int| #[trigger] has_bit(attacks, t) ==> piece_attacks(piece.spec_index() as int, g.us(), s as int, g.occ(2), t),
        g.moves_to_attacked(s, piece, attacks).contains(m),
    ensures
        move_in_range(m, g.white_to_move),
        move_fits(g.position(), m),
        move_shape(g, m),
        m.to_piece_type is Some ==> g.attacked_by(m.to_square as int, g.us()),
{
    reveal(ChessGame::playable);
    let p = g.position();
    lemma_game_consistent(g);
    let i = g.our_offset() + piece.spec_index();
    let quiet = g.targets_moves(s, piece, attacks & !g.occ(2), false);
    let caps = g.targets_moves(s, piece, attacks & g.their_occ(), true);
    lemma_seq_add_member(quiet, caps, m);
    lemma_consistent_bits(p, s as int);
    if quiet.contains(m) {
        lemma_bb_moves_member(attacks & !g.occ(2), |t: usize| g.target_move(s, piece, t, false), m);
        let t = choose|t: int| 0 <= t < 64 && #[trigger] has_bit(attacks & !g.occ(2), t) && m == g.target_move(s, piece, t as usize, false);
        lemma_has_bit_and(attacks, !g.occ(2), t);
        lemma_has_bit_not(g.occ(2), t);
        lemma_consistent_bits(p, t);
        assert(has_bit(g.occ(2), s as int));
    } else {
        lemma_bb_moves_member(attacks & g.their_occ(), |t: usize| g.target_move(s, piece, t, true), m);
        let t = choose|t: int| 0 <= t < 64 && #[trigger] has_bit(attacks & g.their_occ(), t) && m == g.target_move(s, piece, t as usize, true);
        lemma_has_bit_and(attacks, g.their_occ(), t);
        lemma_consistent_bits(p, t);
        let j = if g.white_to_move {
            choose|j: int| 6 <= j < 12 && #[trigger] has_bit(p.pb[j], t)
        } else {
            choose|j: int| 0 <= j < 6 && #[trigger] has_bit(p.pb[j], t)
        };
        lemma_piece_on(g, j, t);
        assert(t != s) by {
            if t == s {
                assert(has_bit(p.pb[i], t));
            }
        }
        assert(has_bit(attacks, t));
        let k = piece.spec_index() as int;
        assert(has_bit(g.pb()[g.us().spec_offset() + k], s as int));
        assert(kind_attacks(g.pb(), g.occ(2), k, g.us(), t));
    }
}

/// An element of a joined sequence is in one of the parts.
pub proof fn lemma_seq_add_member(a: Seq<Move>, b: Seq<Move>, m: Move)
    requires
        (a + b).contains(m),
    ensures
        a.contains(m) || b.contains(m),
{
    let k = choose|k: int| 0 <= k < (a + b).len() && (a + b)[k] == m;
    if k < a.len() {
        assert(a[k] == m);
    } else {
        assert(b[k - a.len()] == m);
    }
}

/// The king's moves fit a playable position.
pub proof fn lemma_king_moves_fit(g: &ChessGame, m: Move)
    requires
        g.playable(),
        g.king_moves().contains(m),
    ensures
        move_in_range(m, g.white_to_move),
        move_fits(g.position(), m),
        move_shape(g, m),
        m.to_piece_type is Some ==> g.attacked_by(m.to_square as int, g.us()),
{
    reveal(ChessGame::playable);
    let p = g.position();
    lemma_game_consistent(g);
    let kb = g.pb()[g.our_offset() + 5];
    let s = lsb(kb) as usize;
    let k = g.king_start();
    crate::movegen::lemma_pop_lsb(kb);
    let steps = g.moves_to_attacked(s, PieceType::King, g.bitboard_constants.king_attacks@[s as int]);
    let short = if g.short_castle_open() {
        seq![castle_move(s, (k + 2) as usize, CastleSides::Short, g.en_passant_target)]
    } else {
        seq![]
    };
    let long = if g.long_castle_open() {
        seq![castle_move(s, (k - 2) as usize, CastleSides::Long, g.en_passant_target)]
    } else {
        seq![]
    };
    assert(g.king_moves() == steps + short + long);
    lemma_seq_add_member(steps + short, long, m);
    if (steps + short).contains(m) {
        lemma_seq_add_member(steps, short, m);
    }
    if steps.contains(m) {
        assert forall|t: int| #[trigger] has_bit(g.bitboard_constants.king_attacks@[s as int], t) implies piece_attacks(5, g.us(), s as int, g.occ(2), t) by {}
        lemma_attacked_moves_fit(g, s, PieceType::King, g.bitboard_constants.king_attacks@[s as int], m);
    } else if short.contains(m) {
        assert(m == short[0]);
        lemma_consistent_bits(p, k + 1);
        lemma_consistent_bits(p, k + 2);
        assert(s == k);
    } else {
        assert(m == long[0]);
        lemma_consistent_bits(p, k - 1);
        lemma_consistent_bits(p, k - 2);
        assert(s == k);
    }
}

/// The moves of the pawn on `s` fit a playable position.
pub proof fn lemma_pawn_moves_from_fit(g: &ChessGame, s: usize, m: Move)
    requires
        g.playable(),
        has_bit(g.pb()[g.our_offset()], s as int),
        (g.pawn_push_moves(s) + g.pawn_capture_moves(s) + g.pawn_ep_moves(s)).contains(m),
    ensures
        move_in_range(m, g.white_to_move),
        move_fits(g.position(), m),
        move_shape(g, m),
        m.to_piece_type is Some && !m.is_en_passant_capture ==> g.attacked_by(m.to_square as int, g.us()),
        m.to_piece_type == Some(PieceType::King) ==> g.attacked_by(m.to_square as int, g.us()),
{
    reveal(ChessGame::playable);
    let p = g.position();
    let w = g.white_to_move;
    lemma_game_consistent(g);
    lemma_consistent_bits(p, s as int);
    let push = g.pawn_push_moves(s);
    let caps = g.pawn_capture_moves(s);
    let eps = g.pawn_ep_moves(s);
    lemma_seq_add_member(push + caps, eps, m);
    if (push + caps).contains(m) {
        lemma_seq_add_member(push, caps, m);
    }
    if push.contains(m) {
        let t1 = g.pawn_step(s as int);
        let t2 = g.pawn_step(t1);
        lemma_consistent_bits(p, t1);
        if g.on_pawn_start_rank(s as int) {
            lemma_consistent_bits(p, t2);
        }
        let k = choose|k: int| 0 <= k < push.len() && #[trigger] push[k] == m;
        if !has_bit(g.occ(2), t1) && !g.on_promotion_rank(t1) && k == 1 {
            assert(g.on_pawn_start_rank(s as int) && !has_bit(g.occ(2), t2));
        }
    } else if caps.contains(m) {
        let f = |t: usize| g.pawn_capture_moves_to(s, t);
        lemma_bb_flat_member(g.pawn_attacks_from(s as int) & g.their_occ(), f, m);
        let t = choose|t: int| 0 <= t < 64 && #[trigger] has_bit(g.pawn_attacks_from(s as int) & g.their_occ(), t) && f(t as usize).contains(m);
        lemma_has_bit_and(g.pawn_attacks_from(s as int), g.their_occ(), t);
        lemma_consistent_bits(p, t);
        let j = if w {
            choose|j: int| 6 <= j < 12 && #[trigger] has_bit(p.pb[j], t)
        } else {
            choose|j: int| 0 <= j < 6 && #[trigger] has_bit(p.pb[j], t)
        };
        lemma_piece_on(g, j, t);
        assert(t != s) by {
            if t == s {
                assert(has_bit(p.pb[g.our_offset()], t));
            }
        }
        let ms = f(t as usize);
        let k = choose|k: int| 0 <= k < ms.len() && #[trigger] ms[k] == m;
        assert(m == ms[k]);
        assert(has_bit(g.pawn_attacks_from(s as int), t));
        assert(piece_attacks(0, g.us(), s as int, g.occ(2), t));
        assert(has_bit(g.pb()[g.us().spec_offset() + 0], s as int));
        assert(kind_attacks(g.pb(), g.occ(2), 0, g.us(), t));
    } else {
        let e = g.en_passant_target->0;
        assert(g.en_passant_target is Some);
        lemma_consistent_bits(p, e as int);
        let cs = if w { e + 8 } else { e - 8 };
        lemma_consistent_bits(p, cs);
        assert(m == eps[0]);
        assert(cs != s) by {
            if cs == s {
                assert(has_bit(p.pb[g.our_offset()], cs));
                assert(has_bit(p.pb[g.their_offset()], cs));
            }
        }
    }
}

/// The pawn moves fit a playable position.
pub proof fn lemma_pawn_moves_fit(g: &ChessGame, m: Move)
    requires
        g.playable(),
        g.pawn_moves().contains(m),
    ensures
        move_in_range(m, g.white_to_move),
        move_fits(g.position(), m),
        move_shape(g, m),
        m.to_piece_type is Some && !m.is_en_passant_capture ==> g.attacked_by(m.to_square as int, g.us()),
        m.to_piece_type == Some(PieceType::King) ==> g.attacked_by(m.to_square as int, g.us()),
{
    reveal(ChessGame::playable);
    let f = |s: usize| g.pawn_push_moves(s) + g.pawn_capture_moves(s) + g.pawn_ep_moves(s);
    lemma_bb_flat_member(g.pb()[g.our_offset()], f, m);
    let s = choose|s: int| 0 <= s < 64 && #[trigger] has_bit(g.pb()[g.our_offset()], s) && f(s as usize).contains(m);
    lemma_pawn_moves_from_fit(g, s as usize, m);
}

/// The knight and slider moves fit a playable position.
pub proof fn lemma_piece_moves_fit(g: &ChessGame, piece: PieceType, m: Move)
    requires
        g.playable(),
        piece == PieceType::Knight || crate::movegen::is_slider(piece),
        (if piece == PieceType::Knight { g.knight_moves() } else { g.slider_moves(piece) }).contains(m),
    ensures
        move_in_range(m, g.white_to_move),
        move_fits(g.position(), m),
        move_shape(g, m),
        m.to_piece_type is Some ==> g.attacked_by(m.to_square as int, g.us()),
{
    reveal(ChessGame::playable);
    let board = g.pb()[g.our_offset() + piece.spec_index()];
    if piece == PieceType::Knight {
        let f = |s: usize| g.moves_to_attacked(s, PieceType::Knight, g.bitboard_constants.knight_attacks@[s as int]);
        lemma_bb_flat_member(board, f, m);
        let s = choose|s: int| 0 <= s < 64 && #[trigger] has_bit(board, s) && f(s as usize).contains(m);
        assert forall|t: int| #[trigger] has_bit(g.bitboard_constants.knight_attacks@[s as int], t) implies piece_attacks(2, g.us(), s as int, g.occ(2), t) by {}
        lemma_attacked_moves_fit(g, s as usize, piece, g.bitboard_constants.knight_attacks@[s as int], m);
    } else {
        let f = |s: usize| g.moves_to_attacked(s, piece, crate::movegen::slider_attacks(piece, s as int, g.occ(2)));
        lemma_bb_flat_member(board, f, m);
        let s = choose|s: int| 0 <= s < 64 && #[trigger] has_bit(board, s) && f(s as usize).contains(m);
        let occ = g.occ(2);
        assert forall|t: int| #[trigger] has_bit(crate::movegen::slider_attacks(piece, s, occ), t) implies piece_attacks(piece.spec_index() as int, g.us(), s, occ, t) by {
            crate::bitlemmas::lemma_has_bit_or(crate::runtime_calculated_constants::bishop_rays(s, occ), crate::runtime_calculated_constants::rook_rays(s, occ), t);
        }
        lemma_attacked_moves_fit(g, s as usize, piece, crate::movegen::slider_attacks(piece, s as int, g.occ(2)), m);
    }
}

/// Every generated move fits a playable position, so it can be made and
/// taken back.
pub proof fn lemma_pseudo_moves_fit(g: &ChessGame, m: Move)
    requires
        g.playable(),
        g.pseudo_moves().contains(m),
    ensures
        move_in_range(m, g.white_to_move),
        move_fits(g.position(), m),
        move_shape(g, m),
        m.to_piece_type is Some && !m.is_en_passant_capture ==> g.attacked_by(m.to_square as int, g.us()),
        m.to_piece_type == Some(PieceType::King) ==> g.attacked_by(m.to_square as int, g.us()),
{
    reveal(ChessGame::playable);
    let q = g.slider_moves(PieceType::Queen);
    let r = g.slider_moves(PieceType::Rook);
    let b = g.slider_moves(PieceType::Bishop);
    let n = g.knight_moves();
    let k = g.king_moves();
    let pw = g.pawn_moves();
    lemma_seq_add_member(q + r + b + n + k, pw, m);
    if (q + r + b + n + k).contains(m) {
        lemma_seq_add_member(q + r + b + n, k, m);
        if (q + r + b + n).contains(m) {
            lemma_seq_add_member(q + r + b, n, m);
            if (q + r + b).contains(m) {
                lemma_seq_add_member(q + r, b, m);
                if (q + r).contains(m) {
                    lemma_seq_add_member(q, r, m);
                    if q.contains(m) {
                        lemma_piece_moves_fit(g, PieceType::Queen, m);
                    } else {
                        lemma_piece_moves_fit(g, PieceType::Rook, m);
                    }
                } else {
                    lemma_piece_moves_fit(g, PieceType::Bishop, m);
                }
            } else {
                lemma_piece_moves_fit(g, PieceType::Knight, m);
            }
        } else {
            lemma_king_moves_fit(g, m);
        }
    } else {
        lemma_pawn_moves_fit(g, m);
    }
}

/// What a playable game provides to the functions that read it.
pub proof fn lemma_playable_parts(g: &ChessGame)
    requires
        g.playable(),
    ensures
        g.bitboard_constants.tables_correct(),
        g.bitboard_constants.shaped(),
        g.occupancy_consistent(),
        g.pieces_disjoint(),
        g.pb()[5] != 0,
        g.pb()[11] != 0,
{
    reveal(ChessGame::playable);
}

} // verus!
