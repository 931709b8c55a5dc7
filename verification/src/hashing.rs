//! The hash of a position computed from scratch, and why the hash a game
//! keeps up to date move by move stays equal to it.
use vstd::prelude::*;
use crate::helpers::has_bit;
use crate::position::{
    Position, key, key_if, setb, clrb, made_pb, made_pb_capture, made_pb_castle, mover_board,
    dest_board, captured_board, captured_square, rook_from, rook_to, side_off, is_ep_capture,
    position_consistent, move_in_range, move_fits, lemma_setb_clrb, lemma_square_consistent,
    square_consistent,
};
use crate::chess_move::Move;
use crate::position::{make_position, zobrist_delta};
use crate::runtime_calculated_constants::Constants;

verus! {

/// The combined keys of the first `n` (board, square) pairs held by the
/// piece bitboards, pair `n` being board `n / 64` and square `n % 64`.
pub open spec fn board_hash_upto(k: &Constants, pb: Seq<u64>, n: nat) -> u64
    decreases n,
{
    if n == 0 {
        0
    } else {
        let m: int = n - 1;
        board_hash_upto(k, pb, (n - 1) as nat) ^ key_if(has_bit(pb[m / 64], m % 64), key(k, m / 64, m % 64))
    }
}

/// The combined keys of every piece on the board.
pub open spec fn board_hash(k: &Constants, pb: Seq<u64>) -> u64 {
    board_hash_upto(k, pb, 768)
}

/// The hash of a position computed from scratch: the keys of its pieces,
/// the side-to-move key when black is to move, the key of each castling
/// right held, and the key of the en-passant file when there is a target.
pub open spec fn full_hash(k: &Constants, p: Position) -> u64 {
    board_hash(k, p.pb) ^ key_if(!p.white_to_move, k.zobrist_to_move) ^ key_if(
        p.can_white_castle_short,
        k.zobrist_castling_rights@[0],
    ) ^ key_if(p.can_white_castle_long, k.zobrist_castling_rights@[1]) ^ key_if(
        p.can_black_castle_short,
        k.zobrist_castling_rights@[2],
    ) ^ key_if(p.can_black_castle_long, k.zobrist_castling_rights@[3]) ^ key_if(
        p.en_passant_target is Some,
        k.zobrist_en_passant@[(p.en_passant_target->0 % 8) as int],
    )
}

/// Regrouping and the neutral element of `^`.
pub proof fn lemma_xor_swap(a: u64, b: u64, c: u64)
    by (bit_vector)
    ensures
        (a ^ b) ^ c == (a ^ c) ^ b,
        a ^ (b ^ c) == (a ^ b) ^ c,
        a ^ 0u64 == a,
        (a ^ 0u64) ^ c == a ^ c,
        a ^ a == 0u64,
        0u64 ^ a == a,
{
}

/// Changing one square of one board toggles that pair's key in the
/// combined keys of the first `n` pairs, once the pair is among them.
proof fn lemma_toggle_upto(k: &Constants, pb: Seq<u64>, i: int, s: int, b: u64, n: nat)
    requires
        pb.len() == 12,
        0 <= i < 12,
        0 <= s < 64,
        forall|t: int| 0 <= t < 64 && t != s ==> has_bit(b, t) == has_bit(pb[i], t),
        has_bit(b, s) != has_bit(pb[i], s),
        n <= 768,
    ensures
        board_hash_upto(k, pb.update(i, b), n) == board_hash_upto(k, pb, n) ^ key_if(
            i * 64 + s < n,
            key(k, i, s),
        ),
    decreases n,
{
    let q = pb.update(i, b);
    if n == 0 {
        lemma_xor_swap(0, 0, 0);
    } else {
        let m: int = n - 1;
        lemma_toggle_upto(k, pb, i, s, b, (n - 1) as nat);
        let bi = m / 64;
        let bs = m % 64;
        let kk = key(k, i, s);
        let h = board_hash_upto(k, pb, (n - 1) as nat);
        let x = key_if(i * 64 + s < m, kk);
        let term = key_if(has_bit(pb[bi], bs), key(k, bi, bs));
        let term2 = key_if(has_bit(q[bi], bs), key(k, bi, bs));
        assert(0 <= bi < 12);
        if m == i * 64 + s {
            assert(bi == i && bs == s);
            assert(x == 0);
            lemma_xor_swap(h, 0, term2);
            if has_bit(b, s) {
                assert(term2 == kk && term == 0);
                lemma_xor_swap(h, 0, kk);
            } else {
                assert(term2 == 0 && term == kk);
                lemma_xor_swap(h, 0, 0);
                crate::bitlemmas::lemma_bit_identities();
                assert((h ^ kk) ^ kk == h);
            }
        } else {
            assert(bi != i || bs != s);
            assert(term2 == term);
            assert(key_if(i * 64 + s < n, kk) == x);
            lemma_xor_swap(h, x, term);
        }
    }
}

/// Changing one square of one board toggles that pair's key in the hash of
/// the board.
pub proof fn lemma_board_hash_toggle(k: &Constants, pb: Seq<u64>, i: int, s: int, b: u64)
    requires
        pb.len() == 12,
        0 <= i < 12,
        0 <= s < 64,
        forall|t: int| 0 <= t < 64 && t != s ==> has_bit(b, t) == has_bit(pb[i], t),
        has_bit(b, s) != has_bit(pb[i], s),
    ensures
        board_hash(k, pb.update(i, b)) == board_hash(k, pb) ^ key(k, i, s),
{
    lemma_toggle_upto(k, pb, i, s, b, 768);
}

/// Making a fitting move changes the hash of the board by the keys of the
/// squares the moving piece leaves and reaches, of the captured piece, and
/// of the castling rook's two squares.
pub proof fn lemma_made_board_hash(p: Position, m: Move, k: &Constants)
    requires
        position_consistent(p),
        move_in_range(m, p.white_to_move),
        move_fits(p, m),
    ensures
        board_hash(k, made_pb(p, m)) == board_hash(k, p.pb)
            ^ key(k, mover_board(m, p.white_to_move), m.from_square as int)
            ^ key(k, dest_board(m, p.white_to_move), m.to_square as int)
            ^ key_if(m.to_piece_type is Some, key(k, captured_board(m, p.white_to_move), captured_square(m, p.white_to_move)))
            ^ key_if(m.castle_side is Some, key(k, side_off(p.white_to_move) + 3, rook_from(m)))
            ^ key_if(m.castle_side is Some, key(k, side_off(p.white_to_move) + 3, rook_to(m))),
{
    lemma_setb_clrb();
    let w = p.white_to_move;
    let from = m.from_square as int;
    let to = m.to_square as int;
    let pm = mover_board(m, w);
    let d = dest_board(m, w);
    let pb = p.pb;
    lemma_square_consistent(p, to);
    lemma_square_consistent(p, from);
    let pb1 = pb.update(pm, clrb(pb[pm], from));
    lemma_board_hash_toggle(k, pb, pm, from, clrb(pb[pm], from));
    let b1 = board_hash(k, pb) ^ key(k, pm, from);
    assert(!has_bit(pb[d], to)) by {
        if m.to_piece_type is Some && !is_ep_capture(m) {
            assert(square_consistent(p, to));
            assert(has_bit(pb[captured_board(m, w)], to));
        }
    }
    assert(has_bit(pb1[d], to) == has_bit(pb[d], to));
    let pb2 = pb1.update(d, setb(pb1[d], to));
    lemma_board_hash_toggle(k, pb1, d, to, setb(pb1[d], to));
    let b2 = b1 ^ key(k, d, to);
    let pb3 = made_pb_capture(pb2, m, w);
    let t3 = key_if(m.to_piece_type is Some, key(k, captured_board(m, w), captured_square(m, w)));
    if m.to_piece_type is Some {
        let c = captured_board(m, w);
        let cs = captured_square(m, w);
        assert(c != pm && c != d);
        assert(pb2[c] == pb[c]);
        assert(has_bit(pb2[c], cs));
        lemma_board_hash_toggle(k, pb2, c, cs, clrb(pb2[c], cs));
    } else {
        lemma_xor_swap(b2, 0, 0);
    }
    assert(board_hash(k, pb3) == b2 ^ t3);
    let b3 = b2 ^ t3;
    let r = side_off(w) + 3;
    let t4 = key_if(m.castle_side is Some, key(k, r, rook_from(m)));
    let t5 = key_if(m.castle_side is Some, key(k, r, rook_to(m)));
    if m.castle_side is Some {
        let rf = rook_from(m);
        let rt = rook_to(m);
        lemma_square_consistent(p, rf);
        lemma_square_consistent(p, rt);
        assert(has_bit(pb3[r], rf) == has_bit(pb[r], rf));
        assert(has_bit(pb3[r], rt) == has_bit(pb[r], rt));
        let mid = clrb(pb3[r], rf);
        lemma_board_hash_toggle(k, pb3, r, rf, mid);
        let pb3b = pb3.update(r, mid);
        assert(pb3b[r] == mid);
        lemma_board_hash_toggle(k, pb3b, r, rt, setb(mid, rt));
        assert(pb3b.update(r, setb(mid, rt)) == made_pb_castle(pb3, m, w));
    } else {
        lemma_xor_swap(b3, 0, 0);
        lemma_xor_swap(b3 ^ 0, 0, 0);
    }
}

/// `key_if(c, v)` with `v` toggled is `key_if(!c, v)`.
proof fn lemma_key_if_toggle(c: bool, v: u64)
    ensures
        key_if(c, v) ^ v == key_if(!c, v),
        key_if(c, v) ^ 0u64 == key_if(c, v),
{
    lemma_xor_swap(v, 0, 0);
    lemma_xor_swap(0, 0, 0);
    lemma_xor_swap(v, v, 0);
}

/// Making a fitting move keeps the hash a position carries equal to the
/// hash computed from scratch, when it was equal before: the keys a move
/// toggles are exactly those of what it changes.
pub proof fn lemma_make_keeps_hash(p: Position, m: Move, k: &Constants)
    requires
        position_consistent(p),
        move_in_range(m, p.white_to_move),
        move_fits(p, m),
        p.zobrist_hash == full_hash(k, p),
    ensures
        make_position(p, m, k).zobrist_hash == full_hash(k, make_position(p, m, k)),
{
    lemma_made_board_hash(p, m, k);
    let w = p.white_to_move;
    let q = make_position(p, m, k);
    let cr = k.zobrist_castling_rights@;
    let tm = k.zobrist_to_move;
    let t1 = key(k, mover_board(m, w), m.from_square as int);
    let t2 = key(k, dest_board(m, w), m.to_square as int);
    let t3 = key_if(m.to_piece_type is Some, key(k, captured_board(m, w), captured_square(m, w)));
    let t4 = key_if(m.castle_side is Some, key(k, side_off(w) + 3, rook_from(m)));
    let t5 = key_if(m.castle_side is Some, key(k, side_off(w) + 3, rook_to(m)));
    let t6 = key_if(m.removes_white_castling_rights_short == Some(true), cr[0]);
    let t7 = key_if(m.removes_white_castling_rights_long == Some(true), cr[1]);
    let t8 = key_if(m.removes_black_castling_rights_short == Some(true), cr[2]);
    let t9 = key_if(m.removes_black_castling_rights_long == Some(true), cr[3]);
    let t10 = key_if(
        m.next_en_passant_target_coord is Some,
        k.zobrist_en_passant@[(m.next_en_passant_target_coord->0 % 8) as int],
    );
    let b = board_hash(k, p.pb);
    let sd = key_if(!w, tm);
    let c0 = key_if(p.can_white_castle_short, cr[0]);
    let c1 = key_if(p.can_white_castle_long, cr[1]);
    let c2 = key_if(p.can_black_castle_short, cr[2]);
    let c3 = key_if(p.can_black_castle_long, cr[3]);
    let e = key_if(p.en_passant_target is Some, k.zobrist_en_passant@[(p.en_passant_target->0 % 8) as int]);
    assert(zobrist_delta(k, m, w) == t1 ^ t2 ^ t3 ^ t4 ^ t5 ^ t6 ^ t7 ^ t8 ^ t9 ^ t10 ^ e ^ tm);
    lemma_key_if_toggle(!w, tm);
    assert(key_if(!q.white_to_move, tm) == sd ^ tm);
    lemma_key_if_toggle(p.can_white_castle_short, cr[0]);
    lemma_key_if_toggle(p.can_white_castle_long, cr[1]);
    lemma_key_if_toggle(p.can_black_castle_short, cr[2]);
    lemma_key_if_toggle(p.can_black_castle_long, cr[3]);
    assert(key_if(q.can_white_castle_short, cr[0]) == c0 ^ t6);
    assert(key_if(q.can_white_castle_long, cr[1]) == c1 ^ t7);
    assert(key_if(q.can_black_castle_short, cr[2]) == c2 ^ t8);
    assert(key_if(q.can_black_castle_long, cr[3]) == c3 ^ t9);
    assert(board_hash(k, q.pb) == b ^ t1 ^ t2 ^ t3 ^ t4 ^ t5);
    assert((b ^ sd ^ c0 ^ c1 ^ c2 ^ c3 ^ e) ^ (t1 ^ t2 ^ t3 ^ t4 ^ t5 ^ t6 ^ t7 ^ t8 ^ t9 ^ t10 ^ e ^ tm)
        == (b ^ t1 ^ t2 ^ t3 ^ t4 ^ t5) ^ (sd ^ tm) ^ (c0 ^ t6) ^ (c1 ^ t7) ^ (c2 ^ t8) ^ (c3 ^ t9) ^ t10)
        by (bit_vector);
}

/// In a playable game whose hash equals the hash computed from scratch,
/// every legal move leads to a position whose hash again equals the hash
/// computed from scratch.
pub proof fn lemma_legal_move_keeps_hash(g: &crate::chess_game::ChessGame, m: Move)
    requires
        g.playable(),
        g.legal_moves_spec().contains(m),
        g.zobrist_hash == full_hash(g.bitboard_constants, g.position()),
    ensures
        g.after(m).zobrist_hash == full_hash(g.bitboard_constants, g.after(m)),
{
    crate::legal_moves::lemma_legal_move_facts(g, m);
    crate::legality::lemma_playable_parts(g);
    crate::legality::lemma_game_consistent(g);
    lemma_make_keeps_hash(g.position(), m, g.bitboard_constants);
}

} // verus!
