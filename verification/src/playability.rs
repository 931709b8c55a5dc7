//! Checking at run time the conditions the engine's functions require of a
//! game: correct attack tables, a consistent board, and a playable position.
use vstd::prelude::*;
use crate::chess_game::{ChessGame, side_union};
use crate::color::Color;
use crate::helpers::{has_bit, get_bit, get_lsb_index, lsb, lemma_lsb};
use crate::runtime_calculated_constants::{
    Constants, mask_pawn_attacks, mask_knight_attacks, mask_king_attacks, pawn_attack_target,
    knight_attack_target, king_attack_target,
};
use crate::bitlemmas::lemma_bits_ext;

verus! {

impl Constants {
    /// Whether the tables have their sizes (2 x 64 pawn, 64 knight and king
    /// attack sets, 12 x 64 piece keys, 4 castling and 8 file keys).
    pub fn is_shaped(&self) -> (r: bool)
        ensures
            r == self.shaped(),
    {
        if self.pawn_attacks.len() != 2 || self.pawn_attacks[0].len() != 64 || self.pawn_attacks[1].len()
            != 64 || self.knight_attacks.len() != 64 || self.king_attacks.len() != 64
            || self.zobrist_table.len() != 12 || self.zobrist_castling_rights.len() != 4
            || self.zobrist_en_passant.len() != 8 {
            return false;
        }
        let mut i: usize = 0;
        while i < 12
            invariant
                i <= 12,
                self.zobrist_table@.len() == 12,
                forall|j: int| 0 <= j < i ==> (#[trigger] self.zobrist_table@[j])@.len() == 64,
            decreases 12 - i,
        {
            if self.zobrist_table[i].len() != 64 {
                return false;
            }
            i += 1;
        }
        true
    }

    /// Whether the attack tables are shaped and hold exactly the squares each
    /// leaper attacks.
    pub fn tables_are_correct(&self) -> (r: bool)
        ensures
            r == self.tables_correct(),
    {
        if !self.is_shaped() {
            return false;
        }
        let mut s: usize = 0;
        while s < 64
            invariant
                s <= 64,
                self.shaped(),
                forall|q: int, t: int|
                    0 <= q < s ==> (#[trigger] has_bit(self.pawn_attacks@[0]@[q], t) == pawn_attack_target(
                        q,
                        Color::White,
                        t,
                    )),
                forall|q: int, t: int|
                    0 <= q < s ==> (#[trigger] has_bit(self.pawn_attacks@[1]@[q], t) == pawn_attack_target(
                        q,
                        Color::Black,
                        t,
                    )),
                forall|q: int, t: int|
                    0 <= q < s ==> (#[trigger] has_bit(self.knight_attacks@[q], t) == knight_attack_target(q, t)),
                forall|q: int, t: int|
                    0 <= q < s ==> (#[trigger] has_bit(self.king_attacks@[q], t) == king_attack_target(q, t)),
            decreases 64 - s,
        {
            let wp = mask_pawn_attacks(s, Color::White);
            let bp = mask_pawn_attacks(s, Color::Black);
            let kn = mask_knight_attacks(s);
            let kg = mask_king_attacks(s);
            let a = self.pawn_attacks[0][s];
            let b = self.pawn_attacks[1][s];
            let c = self.knight_attacks[s];
            let d = self.king_attacks[s];
            if a != wp || b != bp || c != kn || d != kg {
                proof {
                    if self.tables_correct() {
                        assert forall|t: int| 0 <= t < 64 implies has_bit(a, t) == has_bit(wp, t) by {
                            assert(has_bit(self.pawn_attacks@[0]@[s as int], t) == pawn_attack_target(s as int, Color::White, t));
                        }
                        assert forall|t: int| 0 <= t < 64 implies has_bit(b, t) == has_bit(bp, t) by {
                            assert(has_bit(self.pawn_attacks@[1]@[s as int], t) == pawn_attack_target(s as int, Color::Black, t));
                        }
                        assert forall|t: int| 0 <= t < 64 implies has_bit(c, t) == has_bit(kn, t) by {
                            assert(has_bit(self.knight_attacks@[s as int], t) == knight_attack_target(s as int, t));
                        }
                        assert forall|t: int| 0 <= t < 64 implies has_bit(d, t) == has_bit(kg, t) by {
                            assert(has_bit(self.king_attacks@[s as int], t) == king_attack_target(s as int, t));
                        }
                        lemma_bits_ext(a, wp);
                        lemma_bits_ext(b, bp);
                        lemma_bits_ext(c, kn);
                        lemma_bits_ext(d, kg);
                    }
                }
                return false;
            }
            s += 1;
        }
        true
    }
}

impl<'a> ChessGame<'a> {
    /// Whether the occupancy bitboards agree with the piece bitboards: each
    /// side's is the union of its six boards, and the third is both sides'.
    pub fn occupancy_is_consistent(&self) -> (r: bool)
        ensures
            r == self.occupancy_consistent(),
    {
        let pb = &self.piece_bitboards;
        let white = pb[0] | pb[1] | pb[2] | pb[3] | pb[4] | pb[5];
        let black = pb[6] | pb[7] | pb[8] | pb[9] | pb[10] | pb[11];
        self.occupancy_bitboards[0] == white && self.occupancy_bitboards[1] == black
            && self.occupancy_bitboards[2] == self.occupancy_bitboards[0] | self.occupancy_bitboards[1]
    }

    /// Whether no two piece bitboards share a square.
    pub fn pieces_are_disjoint(&self) -> (r: bool)
        ensures
            r == self.pieces_disjoint(),
    {
        let mut i: usize = 0;
        while i < 12
            invariant
                i <= 12,
                forall|a: int, b: int|
                    0 <= a < 12 && 0 <= b < 12 && a != b && (a < i || b < i) ==> #[trigger] self.pb()[a]
                        & #[trigger] self.pb()[b] == 0,
            decreases 12 - i,
        {
            let mut j: usize = 0;
            while j < 12
                invariant
                    i < 12,
                    j <= 12,
                    forall|a: int, b: int|
                        0 <= a < 12 && 0 <= b < 12 && a != b && (a < i || b < i) ==> #[trigger] self.pb()[a]
                            & #[trigger] self.pb()[b] == 0,
                    forall|b: int| 0 <= b < j && b != i ==> #[trigger] (self.pb()[i as int] & self.pb()[b]) == 0,
                decreases 12 - j,
            {
                if j != i && self.piece_bitboards[i] & self.piece_bitboards[j] != 0 {
                    proof {
                        assert(self.pb()[i as int] & self.pb()[j as int] != 0);
                        assert(!self.pieces_disjoint());
                    }
                    return false;
                }
                j += 1;
            }
            proof {
                assert forall|b: int| 0 <= b < 12 && b != i implies #[trigger] (self.pb()[b] & self.pb()[i as int]) == 0 by {
                    let x = self.pb()[b];
                    let y = self.pb()[i as int];
                    crate::bitlemmas::lemma_bit_and_comm(x, y);
                }
            }
            i += 1;
        }
        proof {
            assert forall|a: int, b: int| 0 <= a < 12 && 0 <= b < 12 && a != b implies #[trigger] self.pb()[a]
                & #[trigger] self.pb()[b] == 0 by {
                assert(a < 12);
            }
        }
        true
    }

    /// Whether square `s` of board `b` is empty for every `s` in `lo..hi`.
    fn board_clear_between(b: u64, lo: usize, hi: usize) -> (r: bool)
        requires
            lo <= hi <= 64,
        ensures
            r == (forall|s: int| lo <= s < hi ==> !#[trigger] has_bit(b, s)),
    {
        let mut s = lo;
        while s < hi
            invariant
                lo <= s <= hi <= 64,
                forall|q: int| lo <= q < s ==> !#[trigger] has_bit(b, q),
            decreases hi - s,
        {
            if get_bit(b, s) != 0 {
                return false;
            }
            s += 1;
        }
        true
    }

    /// Whether the game is playable: the tables are right, the board is
    /// consistent, each side has one king, no pawn stands on the rank it
    /// would step off, the castling rights and en-passant target fit the
    /// board, and the side not to move is not in check.
    pub fn is_playable(&self) -> (r: bool)
        ensures
            r == self.playable(),
    {
        proof {
            reveal(ChessGame::playable);
        }
        if !self.bitboard_constants.tables_are_correct() || !self.occupancy_is_consistent()
            || !self.pieces_are_disjoint() {
            return false;
        }
        let wk = self.piece_bitboards[5];
        let bk = self.piece_bitboards[11];
        if wk == 0 || wk & (wk - 1) != 0 || bk == 0 || bk & (bk - 1) != 0 {
            return false;
        }
        let wp = self.piece_bitboards[0];
        let bp = self.piece_bitboards[6];
        let wp_ok = Self::board_clear_between(wp, 0, 8);
        let bp_ok = Self::board_clear_between(bp, 56, 64);
        proof {
            assert(wp_ok == (forall|s: int| #[trigger] has_bit(wp, s) ==> s >= 8));
            assert(bp_ok == (forall|s: int| #[trigger] has_bit(bp, s) ==> s < 56));
        }
        if !wp_ok || !bp_ok {
            return false;
        }
        proof {
            lemma_lsb(wk);
            lemma_lsb(bk);
        }
        let wks = get_lsb_index(wk).unwrap();
        let bks = get_lsb_index(bk).unwrap();
        let wr = self.piece_bitboards[3];
        let br = self.piece_bitboards[9];
        if self.can_white_castle_short && !(wks == 60 && get_bit(wr, 63) != 0) {
            return false;
        }
        if self.can_white_castle_long && !(wks == 60 && get_bit(wr, 56) != 0) {
            return false;
        }
        if self.can_black_castle_short && !(bks == 4 && get_bit(br, 7) != 0) {
            return false;
        }
        if self.can_black_castle_long && !(bks == 4 && get_bit(br, 0) != 0) {
            return false;
        }
        match self.en_passant_target {
            Some(e) => {
                let all = self.occupancy_bitboards[2];
                if self.white_to_move {
                    if !(16 <= e && e <= 23 && get_bit(all, e) == 0 && get_bit(bp, e + 8) != 0) {
                        return false;
                    }
                } else {
                    if !(40 <= e && e <= 47 && get_bit(all, e) == 0 && get_bit(wp, e - 8) != 0) {
                        return false;
                    }
                }
            },
            None => {},
        }
        let their_king = if self.white_to_move { bks } else { wks };
        let us = if self.white_to_move { Color::White } else { Color::Black };
        !self.is_square_attacked(their_king, &us)
    }
}

} // verus!
