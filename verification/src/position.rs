//! The mathematical position of a game and what a move does to it.
use vstd::prelude::*;
use crate::castle_sides::CastleSides;
use crate::chess_move::Move;
use crate::piece_type::PieceType;
use crate::runtime_calculated_constants::Constants;
use crate::helpers::has_bit;
use crate::bitlemmas::{lemma_bits_ext, lemma_has_bit_or, lemma_has_bit_and, lemma_has_bit_zero};
use crate::chess_game::side_union;

verus! {

/// Everything about a game that a move changes.
pub struct Position {
    pub pb: Seq<u64>,
    pub occ: Seq<u64>,
    pub white_to_move: bool,
    pub can_white_castle_long: bool,
    pub can_white_castle_short: bool,
    pub can_black_castle_long: bool,
    pub can_black_castle_short: bool,
    pub en_passant_target: Option<usize>,
    pub zobrist_hash: u64,
}

/// `b` with square `x` added.
pub open spec fn setb(b: u64, x: int) -> u64 {
    b | (1u64 << (x as u64))
}

/// `b` with square `x` removed.
pub open spec fn clrb(b: u64, x: int) -> u64 {
    b & !(1u64 << (x as u64))
}

/// Offset of the piece bitboards of the side to move (or of its opponent).
pub open spec fn side_off(white: bool) -> int {
    if white {
        0
    } else {
        6
    }
}

/// Occupancy index of a side.
pub open spec fn side_occ(white: bool) -> int {
    if white {
        0
    } else {
        1
    }
}

/// Board index of the moving piece.
pub open spec fn mover_board(m: Move, white: bool) -> int {
    side_off(white) + m.from_piece_type->0.spec_index()
}

/// Whether the move promotes a pawn.
pub open spec fn is_promotion(m: Move) -> bool {
    m.from_piece_type == Some(PieceType::Pawn) && m.pawn_promoting_to is Some
}

/// Board index where the moving side's piece lands.
pub open spec fn dest_board(m: Move, white: bool) -> int {
    if is_promotion(m) {
        side_off(white) + m.pawn_promoting_to->0.spec_index()
    } else {
        mover_board(m, white)
    }
}

/// Whether the move captures en passant.
pub open spec fn is_ep_capture(m: Move) -> bool {
    m.to_piece_type == Some(PieceType::Pawn) && m.is_en_passant_capture
}

/// Board index of the captured piece.
pub open spec fn captured_board(m: Move, white: bool) -> int {
    side_off(!white) + m.to_piece_type->0.spec_index()
}

/// Square of the captured piece: the destination, or the square behind it
/// for an en-passant capture.
pub open spec fn captured_square(m: Move, white: bool) -> int {
    if is_ep_capture(m) {
        if white {
            m.to_square + 8
        } else {
            m.to_square - 8
        }
    } else {
        m.to_square as int
    }
}

/// Where the castling rook starts.
pub open spec fn rook_from(m: Move) -> int {
    match m.castle_side {
        Some(CastleSides::Short) => m.from_square + 3,
        _ => m.from_square - 4,
    }
}

/// Where the castling rook ends.
pub open spec fn rook_to(m: Move) -> int {
    match m.castle_side {
        Some(CastleSides::Short) => m.from_square + 1,
        _ => m.from_square - 1,
    }
}

pub open spec fn key(k: &Constants, board: int, sq: int) -> u64 {
    k.zobrist_table@[board]@[sq]
}

pub open spec fn key_if(c: bool, v: u64) -> u64 {
    if c {
        v
    } else {
        0
    }
}

/// The hash keys a move toggles, combined.
pub open spec fn zobrist_delta(k: &Constants, m: Move, white: bool) -> u64 {
    let from = m.from_square as int;
    let to = m.to_square as int;
    let cap = m.to_piece_type is Some;
    let castle = m.castle_side is Some;
    let t1 = key(k, mover_board(m, white), from);
    let t2 = key(k, dest_board(m, white), to);
    let t3 = key_if(cap, key(k, captured_board(m, white), captured_square(m, white)));
    let t4 = key_if(castle, key(k, side_off(white) + 3, rook_from(m)));
    let t5 = key_if(castle, key(k, side_off(white) + 3, rook_to(m)));
    let t6 = key_if(
        m.removes_white_castling_rights_short == Some(true),
        k.zobrist_castling_rights@[0],
    );
    let t7 = key_if(
        m.removes_white_castling_rights_long == Some(true),
        k.zobrist_castling_rights@[1],
    );
    let t8 = key_if(
        m.removes_black_castling_rights_short == Some(true),
        k.zobrist_castling_rights@[2],
    );
    let t9 = key_if(
        m.removes_black_castling_rights_long == Some(true),
        k.zobrist_castling_rights@[3],
    );
    let t10 = key_if(
        m.next_en_passant_target_coord is Some,
        k.zobrist_en_passant@[(m.next_en_passant_target_coord->0 % 8) as int],
    );
    let t11 = key_if(
        m.last_en_passant_target_coord is Some,
        k.zobrist_en_passant@[(m.last_en_passant_target_coord->0 % 8) as int],
    );
    t1 ^ t2 ^ t3 ^ t4 ^ t5 ^ t6 ^ t7 ^ t8 ^ t9 ^ t10 ^ t11 ^ k.zobrist_to_move
}

/// Making the moving piece's move: it leaves its square and lands on the
/// destination, promoted or not.
pub open spec fn made_pb_mover(pb: Seq<u64>, m: Move, w: bool) -> Seq<u64> {
    let pm = mover_board(m, w);
    let d = dest_board(m, w);
    let pb1 = pb.update(pm, clrb(pb[pm], m.from_square as int));
    pb1.update(d, setb(pb1[d], m.to_square as int))
}

/// Removing the captured piece.
pub open spec fn made_pb_capture(pb: Seq<u64>, m: Move, w: bool) -> Seq<u64> {
    let c = captured_board(m, w);
    if m.to_piece_type is Some {
        pb.update(c, clrb(pb[c], captured_square(m, w)))
    } else {
        pb
    }
}

/// Moving the castling rook.
pub open spec fn made_pb_castle(pb: Seq<u64>, m: Move, w: bool) -> Seq<u64> {
    let r = side_off(w) + 3;
    if m.castle_side is Some {
        pb.update(r, setb(clrb(pb[r], rook_from(m)), rook_to(m)))
    } else {
        pb
    }
}

/// The piece bitboards after making `m`.
pub open spec fn made_pb(p: Position, m: Move) -> Seq<u64> {
    let w = p.white_to_move;
    made_pb_castle(made_pb_capture(made_pb_mover(p.pb, m, w), m, w), m, w)
}

/// Occupancies after the moving piece moves, before captures.
pub open spec fn made_occ_mover(occ: Seq<u64>, m: Move, w: bool) -> Seq<u64> {
    let from = m.from_square as int;
    let to = m.to_square as int;
    let uo = side_occ(w);
    let o1 = occ.update(uo, setb(clrb(occ[uo], from), to));
    o1.update(2, clrb(o1[2], from))
}

/// Occupancies after the captured piece is removed (or the destination
/// filled when nothing is captured).
pub open spec fn made_occ_capture(occ: Seq<u64>, m: Move, w: bool) -> Seq<u64> {
    let to = m.to_square as int;
    let tho = side_occ(!w);
    if m.to_piece_type is None {
        occ.update(2, setb(occ[2], to))
    } else if is_ep_capture(m) {
        let cs = captured_square(m, w);
        let a = occ.update(2, setb(occ[2], to));
        let b = a.update(tho, clrb(a[tho], cs));
        b.update(2, clrb(b[2], cs))
    } else {
        occ.update(tho, clrb(occ[tho], to))
    }
}

/// Occupancies after the castling rook moves.
pub open spec fn made_occ_castle(occ: Seq<u64>, m: Move, w: bool) -> Seq<u64> {
    let uo = side_occ(w);
    if m.castle_side is Some {
        let a = occ.update(uo, setb(clrb(occ[uo], rook_from(m)), rook_to(m)));
        a.update(2, setb(clrb(a[2], rook_from(m)), rook_to(m)))
    } else {
        occ
    }
}

/// The occupancy bitboards after making `m`.
pub open spec fn made_occ(p: Position, m: Move) -> Seq<u64> {
    let w = p.white_to_move;
    made_occ_castle(made_occ_capture(made_occ_mover(p.occ, m, w), m, w), m, w)
}

/// The position after making `m`.
pub open spec fn make_position(p: Position, m: Move, k: &Constants) -> Position {
    Position {
        pb: made_pb(p, m),
        occ: made_occ(p, m),
        white_to_move: !p.white_to_move,
        can_white_castle_short: if m.removes_white_castling_rights_short == Some(true) {
            false
        } else {
            p.can_white_castle_short
        },
        can_white_castle_long: if m.removes_white_castling_rights_long == Some(true) {
            false
        } else {
            p.can_white_castle_long
        },
        can_black_castle_short: if m.removes_black_castling_rights_short == Some(true) {
            false
        } else {
            p.can_black_castle_short
        },
        can_black_castle_long: if m.removes_black_castling_rights_long == Some(true) {
            false
        } else {
            p.can_black_castle_long
        },
        en_passant_target: m.next_en_passant_target_coord,
        zobrist_hash: p.zobrist_hash ^ zobrist_delta(k, m, p.white_to_move),
    }
}

/// Taking back the moving piece: it returns to its square, and whatever
/// landed on the destination (the piece itself or its promotion) leaves.
pub open spec fn unmade_pb_mover(pb: Seq<u64>, m: Move, w: bool) -> Seq<u64> {
    let from = m.from_square as int;
    let to = m.to_square as int;
    let pm = mover_board(m, w);
    let d = dest_board(m, w);
    if m.from_piece_type == Some(PieceType::Pawn) {
        let pb1 = pb.update(pm, setb(pb[pm], from));
        pb1.update(d, clrb(pb1[d], to))
    } else {
        let pb1 = pb.update(pm, clrb(pb[pm], to));
        pb1.update(pm, setb(pb1[pm], from))
    }
}

/// Taking back a capture: the captured piece returns.
pub open spec fn unmade_pb_capture(pb: Seq<u64>, m: Move, w: bool) -> Seq<u64> {
    let c = captured_board(m, w);
    if m.to_piece_type is Some {
        pb.update(c, setb(pb[c], captured_square(m, w)))
    } else {
        pb
    }
}

/// Taking back castling: the rook returns.
pub open spec fn unmade_pb_castle(pb: Seq<u64>, m: Move, w: bool) -> Seq<u64> {
    let r = side_off(w) + 3;
    if m.castle_side is Some {
        pb.update(r, clrb(setb(pb[r], rook_from(m)), rook_to(m)))
    } else {
        pb
    }
}

/// The piece bitboards after taking back `m`; `w` is the side that made it.
pub open spec fn unmade_pb(p: Position, m: Move, w: bool) -> Seq<u64> {
    unmade_pb_castle(unmade_pb_capture(unmade_pb_mover(p.pb, m, w), m, w), m, w)
}

/// Occupancies after the moving piece is taken back, before captures.
pub open spec fn unmade_occ_mover(occ: Seq<u64>, m: Move, w: bool) -> Seq<u64> {
    let from = m.from_square as int;
    let to = m.to_square as int;
    let uo = side_occ(w);
    let o1 = occ.update(uo, setb(clrb(occ[uo], to), from));
    o1.update(2, setb(o1[2], from))
}

/// Occupancies after a capture is taken back (or the destination emptied).
pub open spec fn unmade_occ_capture(occ: Seq<u64>, m: Move, w: bool) -> Seq<u64> {
    let to = m.to_square as int;
    let tho = side_occ(!w);
    if m.to_piece_type is None {
        occ.update(2, clrb(occ[2], to))
    } else if is_ep_capture(m) {
        let cs = captured_square(m, w);
        let a = occ.update(2, clrb(occ[2], to));
        let b = a.update(tho, setb(a[tho], cs));
        b.update(2, setb(b[2], cs))
    } else {
        occ.update(tho, setb(occ[tho], to))
    }
}

/// Occupancies after the castling rook is taken back.
pub open spec fn unmade_occ_castle(occ: Seq<u64>, m: Move, w: bool) -> Seq<u64> {
    let uo = side_occ(w);
    if m.castle_side is Some {
        let a = occ.update(uo, clrb(setb(occ[uo], rook_from(m)), rook_to(m)));
        a.update(2, clrb(setb(a[2], rook_from(m)), rook_to(m)))
    } else {
        occ
    }
}

/// The occupancy bitboards after taking back `m`; `w` is the side that made it.
pub open spec fn unmade_occ(p: Position, m: Move, w: bool) -> Seq<u64> {
    unmade_occ_castle(unmade_occ_capture(unmade_occ_mover(p.occ, m, w), m, w), m, w)
}

/// The position after taking back `m` (made by the side not to move in `p`).
pub open spec fn unmake_position(p: Position, m: Move, k: &Constants) -> Position {
    let w = !p.white_to_move;
    Position {
        pb: unmade_pb(p, m, w),
        occ: unmade_occ(p, m, w),
        white_to_move: w,
        can_white_castle_short: if m.removes_white_castling_rights_short == Some(true) {
            true
        } else {
            p.can_white_castle_short
        },
        can_white_castle_long: if m.removes_white_castling_rights_long == Some(true) {
            true
        } else {
            p.can_white_castle_long
        },
        can_black_castle_short: if m.removes_black_castling_rights_short == Some(true) {
            true
        } else {
            p.can_black_castle_short
        },
        can_black_castle_long: if m.removes_black_castling_rights_long == Some(true) {
            true
        } else {
            p.can_black_castle_long
        },
        en_passant_target: m.last_en_passant_target_coord,
        zobrist_hash: p.zobrist_hash ^ zobrist_delta(k, m, w),
    }
}

/// The indices a move touches are all in range, so making it cannot fail.
pub open spec fn move_in_range(m: Move, white: bool) -> bool {
    &&& m.from_piece_type is Some
    &&& m.from_square < 64
    &&& m.to_square < 64
    &&& (is_promotion(m) ==> m.pawn_promoting_to != Some(PieceType::King)
        && m.pawn_promoting_to != Some(PieceType::Pawn))
    &&& (m.to_piece_type is Some ==> 0 <= captured_square(m, white) < 64)
    &&& (m.castle_side is Some ==> 0 <= rook_from(m) < 64 && 0 <= rook_to(m) < 64)
}

/// The occupancies agree with the pieces and no square holds two pieces.
pub open spec fn position_consistent(p: Position) -> bool {
    &&& p.pb.len() == 12
    &&& p.occ.len() == 3
    &&& p.occ[0] == side_union(p.pb, 0)
    &&& p.occ[1] == side_union(p.pb, 6)
    &&& p.occ[2] == p.occ[0] | p.occ[1]
    &&& forall|i: int, j: int|
        0 <= i < 12 && 0 <= j < 12 && i != j ==> #[trigger] p.pb[i] & #[trigger] p.pb[j] == 0
}

/// No piece stands on square `t`.
pub open spec fn square_empty(p: Position, t: int) -> bool {
    forall|i: int| 0 <= i < 12 ==> !#[trigger] has_bit(p.pb[i], t)
}

/// `m` is a move the side to move can make in `p` as described: its piece
/// stands on the source square, what it captures stands where the move says
/// (and the destination is otherwise empty), the castling rook stands on its
/// square with its destination free, the castling rights it forfeits are
/// held, and it records the current en-passant target.
pub open spec fn move_fits(p: Position, m: Move) -> bool {
    let w = p.white_to_move;
    let from = m.from_square as int;
    let to = m.to_square as int;
    &&& has_bit(p.pb[mover_board(m, w)], from)
    &&& from != to
    &&& (m.to_piece_type is None || is_ep_capture(m)) ==> square_empty(p, to)
    &&& (m.to_piece_type is Some && !is_ep_capture(m)) ==> has_bit(p.pb[captured_board(m, w)], to)
    &&& is_ep_capture(m) ==> has_bit(p.pb[captured_board(m, w)], captured_square(m, w))
        && captured_square(m, w) != from
    &&& m.castle_side is Some ==> {
        &&& has_bit(p.pb[side_off(w) + 3], rook_from(m))
        &&& square_empty(p, rook_to(m))
        &&& rook_from(m) != from && rook_from(m) != to
        &&& rook_to(m) != from && rook_to(m) != to
    }
    &&& m.removes_white_castling_rights_short == Some(true) ==> p.can_white_castle_short
    &&& m.removes_white_castling_rights_long == Some(true) ==> p.can_white_castle_long
    &&& m.removes_black_castling_rights_short == Some(true) ==> p.can_black_castle_short
    &&& m.removes_black_castling_rights_long == Some(true) ==> p.can_black_castle_long
    &&& m.last_en_passant_target_coord == p.en_passant_target
}

/// Adding and removing a square, bit by bit.
pub proof fn lemma_setb_clrb()
    ensures
        forall|b: u64, x: int, t: int|
            0 <= x < 64 ==> #[trigger] has_bit(setb(b, x), t) == (t == x || has_bit(b, t)),
        forall|b: u64, x: int, t: int|
            0 <= x < 64 ==> #[trigger] has_bit(clrb(b, x), t) == (t != x && has_bit(b, t)),
{
    assert forall|b: u64, x: int, t: int| 0 <= x < 64 implies #[trigger] has_bit(setb(b, x), t)
        == (t == x || has_bit(b, t)) by {
        if 0 <= t < 64 {
            let xx = x as u64;
            let tt = t as u64;
            assert(xx < 64 && tt < 64 ==> (((b | (1u64 << xx)) >> tt) & 1u64 == 1u64) == (tt == xx
                || (b >> tt) & 1u64 == 1u64)) by (bit_vector);
        }
    }
    assert forall|b: u64, x: int, t: int| 0 <= x < 64 implies #[trigger] has_bit(clrb(b, x), t)
        == (t != x && has_bit(b, t)) by {
        if 0 <= t < 64 {
            let xx = x as u64;
            let tt = t as u64;
            assert(xx < 64 && tt < 64 ==> (((b & !(1u64 << xx)) >> tt) & 1u64 == 1u64) == (tt != xx
                && (b >> tt) & 1u64 == 1u64)) by (bit_vector);
        }
    }
}

/// In a consistent position, the occupancies hold exactly the squares of
/// the pieces, and a square holds at most one piece.
pub proof fn lemma_consistent_bits(p: Position, t: int)
    requires
        position_consistent(p),
    ensures
        has_bit(p.occ[0], t) == exists|i: int| 0 <= i < 6 && #[trigger] has_bit(p.pb[i], t),
        has_bit(p.occ[1], t) == exists|i: int| 6 <= i < 12 && #[trigger] has_bit(p.pb[i], t),
        has_bit(p.occ[2], t) == (has_bit(p.occ[0], t) || has_bit(p.occ[1], t)),
        forall|i: int, j: int|
            0 <= i < 12 && 0 <= j < 12 && i != j && #[trigger] has_bit(p.pb[i], t) ==> !#[trigger] has_bit(p.pb[j], t),
{
    crate::chess_game::lemma_side_union_bit(p.pb, 0, t);
    crate::chess_game::lemma_side_union_bit(p.pb, 6, t);
    lemma_has_bit_or(p.occ[0], p.occ[1], t);
    assert forall|i: int, j: int|
        0 <= i < 12 && 0 <= j < 12 && i != j && #[trigger] has_bit(p.pb[i], t) implies !#[trigger] has_bit(p.pb[j], t) by {
        lemma_has_bit_and(p.pb[i], p.pb[j], t);
        lemma_has_bit_zero(t);
        assert(p.pb[i] & p.pb[j] == 0);
    }
    if has_bit(p.occ[0], t) {
        if has_bit(p.pb[0], t) { assert(has_bit(p.pb[0], t)); }
        else if has_bit(p.pb[1], t) { assert(has_bit(p.pb[1], t)); }
        else if has_bit(p.pb[2], t) { assert(has_bit(p.pb[2], t)); }
        else if has_bit(p.pb[3], t) { assert(has_bit(p.pb[3], t)); }
        else if has_bit(p.pb[4], t) { assert(has_bit(p.pb[4], t)); }
        else { assert(has_bit(p.pb[5], t)); }
    }
    if has_bit(p.occ[1], t) {
        if has_bit(p.pb[6], t) { assert(has_bit(p.pb[6], t)); }
        else if has_bit(p.pb[7], t) { assert(has_bit(p.pb[7], t)); }
        else if has_bit(p.pb[8], t) { assert(has_bit(p.pb[8], t)); }
        else if has_bit(p.pb[9], t) { assert(has_bit(p.pb[9], t)); }
        else if has_bit(p.pb[10], t) { assert(has_bit(p.pb[10], t)); }
        else { assert(has_bit(p.pb[11], t)); }
    }
}

/// Taking back a move restores the position it was made from: the pieces,
/// the occupancies, the side to move, the castling rights, the en-passant
/// target and the hash.
pub proof fn lemma_unmake_undoes_make(p: Position, m: Move, k: &Constants)
    requires
        position_consistent(p),
        move_in_range(m, p.white_to_move),
        move_fits(p, m),
    ensures
        unmake_position(make_position(p, m, k), m, k) == p,
{
    let w = p.white_to_move;
    let q = make_position(p, m, k);
    let r = unmake_position(q, m, k);
    lemma_setb_clrb();
    let h = p.zobrist_hash;
    let d = zobrist_delta(k, m, w);
    assert(h ^ d ^ d == h) by {
        crate::bitlemmas::lemma_bit_identities();
    }
    assert forall|i: int| 0 <= i < 12 implies #[trigger] r.pb[i] == p.pb[i] by {
        assert forall|t: int| 0 <= t < 64 implies has_bit(r.pb[i], t) == has_bit(p.pb[i], t) by {
            lemma_consistent_bits(p, t);
            lemma_consistent_bits(p, m.to_square as int);
        }
        lemma_bits_ext(r.pb[i], p.pb[i]);
    }
    assert forall|i: int| 0 <= i < 3 implies #[trigger] r.occ[i] == p.occ[i] by {
        assert forall|t: int| 0 <= t < 64 implies has_bit(r.occ[i], t) == has_bit(p.occ[i], t) by {
            lemma_consistent_bits(p, t);
        }
        lemma_bits_ext(r.occ[i], p.occ[i]);
    }
    assert(r.pb =~= p.pb);
    assert(r.occ =~= p.occ);
}

/// One of the six boards of a side from offset `off` holds `t`.
pub open spec fn union_bits(pb: Seq<u64>, off: int, t: int) -> bool {
    has_bit(pb[off], t) || has_bit(pb[off + 1], t) || has_bit(pb[off + 2], t) || has_bit(pb[off + 3], t)
        || has_bit(pb[off + 4], t) || has_bit(pb[off + 5], t)
}

/// Square `t` of `q` is consistent: the occupancies say what the pieces
/// say, and at most one piece stands on it.
pub open spec fn square_consistent(q: Position, t: int) -> bool {
    &&& has_bit(q.occ[0], t) == union_bits(q.pb, 0, t)
    &&& has_bit(q.occ[1], t) == union_bits(q.pb, 6, t)
    &&& has_bit(q.occ[2], t) == (has_bit(q.occ[0], t) || has_bit(q.occ[1], t))
    &&& forall|i: int, j: int|
        0 <= i < 12 && 0 <= j < 12 && i != j && #[trigger] has_bit(q.pb[i], t) ==> !#[trigger] has_bit(q.pb[j], t)
}

/// Each square of a consistent position is consistent.
pub proof fn lemma_square_consistent(p: Position, t: int)
    requires
        position_consistent(p),
    ensures
        square_consistent(p, t),
{
    lemma_consistent_bits(p, t);
    crate::chess_game::lemma_side_union_bit(p.pb, 0, t);
    crate::chess_game::lemma_side_union_bit(p.pb, 6, t);
}

/// Making a fitting move keeps the position consistent: the occupancies
/// still agree with the pieces and no square holds two pieces.
pub proof fn lemma_make_keeps_consistent(p: Position, m: Move, k: &Constants)
    requires
        position_consistent(p),
        move_in_range(m, p.white_to_move),
        move_fits(p, m),
    ensures
        position_consistent(make_position(p, m, k)),
{
    let q = make_position(p, m, k);
    assert forall|t: int| 0 <= t < 64 implies #[trigger] square_consistent(q, t) by {
        lemma_make_square(p, m, k, t);
    }
    lemma_consistent_from_squares(q);
}

/// Square `t` stays consistent when a fitting move is made.
#[verifier::rlimit(100)]
pub proof fn lemma_make_square(p: Position, m: Move, k: &Constants, t: int)
    requires
        position_consistent(p),
        move_in_range(m, p.white_to_move),
        move_fits(p, m),
        0 <= t < 64,
    ensures
        square_consistent(make_position(p, m, k), t),
{
    lemma_setb_clrb();
    lemma_square_consistent(p, t);
    lemma_square_consistent(p, m.to_square as int);
    lemma_square_consistent(p, m.from_square as int);
}

/// A position all of whose squares are consistent is consistent.
pub proof fn lemma_consistent_from_squares(q: Position)
    requires
        q.pb.len() == 12,
        q.occ.len() == 3,
        forall|t: int| 0 <= t < 64 ==> #[trigger] square_consistent(q, t),
    ensures
        position_consistent(q),
{
    assert forall|t: int| 0 <= t < 64 implies has_bit(q.occ[0], t) == has_bit(side_union(q.pb, 0), t) by {
        assert(square_consistent(q, t));
        crate::chess_game::lemma_side_union_bit(q.pb, 0, t);
    }
    lemma_bits_ext(q.occ[0], side_union(q.pb, 0));
    assert forall|t: int| 0 <= t < 64 implies has_bit(q.occ[1], t) == has_bit(side_union(q.pb, 6), t) by {
        assert(square_consistent(q, t));
        crate::chess_game::lemma_side_union_bit(q.pb, 6, t);
    }
    lemma_bits_ext(q.occ[1], side_union(q.pb, 6));
    assert forall|t: int| 0 <= t < 64 implies has_bit(q.occ[2], t) == has_bit(q.occ[0] | q.occ[1], t) by {
        assert(square_consistent(q, t));
        lemma_has_bit_or(q.occ[0], q.occ[1], t);
    }
    lemma_bits_ext(q.occ[2], q.occ[0] | q.occ[1]);
    assert forall|i: int, j: int| 0 <= i < 12 && 0 <= j < 12 && i != j implies #[trigger] q.pb[i] & #[trigger] q.pb[j] == 0 by {
        assert forall|t: int| 0 <= t < 64 implies has_bit(q.pb[i] & q.pb[j], t) == has_bit(0u64, t) by {
            assert(square_consistent(q, t));
            lemma_has_bit_and(q.pb[i], q.pb[j], t);
            lemma_has_bit_zero(t);
            if has_bit(q.pb[i], t) {
                assert(!has_bit(q.pb[j], t));
            }
        }
        lemma_bits_ext(q.pb[i] & q.pb[j], 0u64);
    }
}

} // verus!
