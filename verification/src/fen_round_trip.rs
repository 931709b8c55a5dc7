//! Reading back the FEN text of a position gives the position again, and
//! reading a FEN text sets the hash computed from scratch.
use vstd::prelude::*;
use crate::chess_game::{ChessGame, color_of_board};
use crate::color::Color;
use crate::fen::{
    BoardScan, scan_step, scan_board, placed, scan_castling, is_white_space, skip_space,
    skip_space_back, trimmed, find_space, fen_board_end, fen_turn_bounds, fen_castling_bounds,
    fen_ep_bounds, turn_of, fen_ok, fen_board_on_board, board_code, lemma_find_space_bounds,
};
use crate::runtime_calculated_constants::Constants;
use crate::helpers::{coord_text, parse_coord};
use crate::laws::lemma_coord_round_trip;
use crate::hashing::{board_hash, full_hash, lemma_board_hash_toggle, lemma_xor_swap};
use crate::fen::pieces_hash;
use crate::position::key_if;
use crate::helpers::has_bit;
use crate::position::{setb, lemma_setb_clrb};
use crate::bitlemmas::{lemma_bits_ext, lemma_has_bit_or};
use crate::chess_game::{side_union, lemma_side_union_bit, first_board_from};
use crate::legality::lemma_piece_on;
use crate::piece_type::{PieceType, piece_of_char};
use crate::text::decimal;

verus! {

/// Reading the characters of `t` once the board reading has reached `s`.
pub open spec fn scan_over(s: BoardScan, t: Seq<char>) -> BoardScan
    decreases t.len(),
{
    if t.len() == 0 {
        s
    } else {
        scan_step(scan_over(s, t.drop_last()), t.last())
    }
}

/// The state before the board field is read.
pub open spec fn scan_start() -> BoardScan {
    BoardScan { y: 0, x: 0, code: 0, pieces: seq![] }
}

/// Reading `a + b` is reading `a`, then `b`.
pub proof fn lemma_scan_over_append(s: BoardScan, a: Seq<char>, b: Seq<char>)
    ensures
        scan_over(s, a + b) == scan_over(scan_over(s, a), b),
    decreases b.len(),
{
    if b.len() == 0 {
        assert(a + b =~= a);
    } else {
        lemma_scan_over_append(s, a, b.drop_last());
        assert((a + b).drop_last() =~= a + b.drop_last());
        assert((a + b).last() == b.last());
    }
}

/// Reading a board field from the start.
pub proof fn lemma_scan_board_over(t: Seq<char>)
    ensures
        scan_board(t) == scan_over(scan_start(), t),
    decreases t.len(),
{
    if t.len() > 0 {
        lemma_scan_board_over(t.drop_last());
    }
}

/// The pieces of `g` on squares `sq` and up, in square order, each with its
/// colour, kind and square.
pub open spec fn pieces_from(g: ChessGame, sq: int) -> Seq<(Color, PieceType, int)>
    decreases 64 - sq,
{
    if sq < 0 || sq >= 64 {
        seq![]
    } else {
        match g.piece_at(sq) {
            Some((p, c)) => seq![(c, p, sq)] + pieces_from(g, sq + 1),
            None => pieces_from(g, sq + 1),
        }
    }
}

/// Reading a count of empty squares moves along the rank.
proof fn lemma_scan_digits(s: BoardScan, d: nat)
    requires
        s.code == 0,
        1 <= d <= 8,
    ensures
        scan_over(s, decimal(d)) == (BoardScan { x: s.x + d, ..s }),
{
    let t = decimal(d);
    let c = (48 + d) as char;
    assert(t =~= seq![c]);
    assert(t.drop_last() =~= Seq::<char>::empty());
    assert(scan_over(s, t.drop_last()) == s);
    assert(c as int == 48 + d);
    assert('0' <= c <= '9');
    assert(scan_step(s, c) == (BoardScan { x: s.x + d, ..s }));
}

/// Reading a piece letter places the piece on the current square.
proof fn lemma_scan_letter(s: BoardScan, p: PieceType, c: Color)
    requires
        s.code == 0,
        0 <= s.y * 8 + s.x < 64,
    ensures
        scan_over(s, seq![p.spec_char_for(c)]) == (BoardScan {
            x: s.x + 1,
            pieces: s.pieces.push((c, p, s.y * 8 + s.x)),
            ..s
        }),
{
    let ch = p.spec_char_for(c);
    let t = seq![ch];
    assert(t.drop_last() =~= Seq::<char>::empty());
    assert(scan_over(s, t.drop_last()) == s);
    assert(piece_of_char(ch) == Some(p));
    assert(ch != '/' && !('0' <= ch <= '9'));
    assert(('A' <= ch <= 'Z') == (c == Color::White));
}

/// Reading the end of a full rank moves to the next rank.
proof fn lemma_scan_slash(s: BoardScan)
    requires
        s.code == 0,
        s.x == 8,
    ensures
        scan_over(s, seq!['/']) == (BoardScan { y: s.y + 1, x: 0, ..s }),
{
    assert(seq!['/'].drop_last() =~= Seq::<char>::empty());
    assert(scan_over(s, Seq::<char>::empty()) == s);
}

/// Reading what square `sq` contributes to the board text (its letter,
/// after any pending empty-square count), `e` empty squares of its rank
/// pending.
proof fn lemma_scan_square(g: ChessGame, sq: int, e: nat, s: BoardScan, p: PieceType, c: Color)
    requires
        0 <= sq < 64,
        s.code == 0,
        s.y == sq / 8,
        0 <= s.x,
        s.x + e == sq % 8,
    ensures
        scan_over(s, (if e > 0 { decimal(e) } else { seq![] }).push(p.spec_char_for(c)))
            == (BoardScan { x: s.x + e + 1, pieces: s.pieces.push((c, p, sq)), ..s }),
{
    let ds: Seq<char> = if e > 0 { decimal(e) } else { seq![] };
    let ch = p.spec_char_for(c);
    let s0 = BoardScan { x: s.x + e, ..s };
    if e > 0 {
        lemma_scan_digits(s, e);
    } else {
        assert(ds =~= Seq::<char>::empty());
        assert(scan_over(s, ds) == s);
        assert(s0 == s);
    }
    assert(s0.y * 8 + s0.x == sq);
    lemma_scan_letter(s0, p, c);
    assert(ds.push(ch) =~= ds + seq![ch]);
    lemma_scan_over_append(s, ds, seq![ch]);
}

/// Reading the board text of `g` from square `sq` on, with `e` empty
/// squares of the rank pending, ends a well-formed board with every piece
/// from `sq` on placed in square order.
pub proof fn lemma_scan_board_text(g: ChessGame, sq: int, e: nat, s: BoardScan)
    requires
        0 <= sq <= 64,
        s.code == 0,
        sq < 64 ==> s.y == sq / 8 && 0 <= s.x && s.x + e == sq % 8,
        sq == 64 ==> s.y == 7 && s.x == 8 && e == 0,
    ensures
        scan_over(s, g.board_fen_from(sq, e)) == (BoardScan {
            y: 7,
            x: 8,
            code: 0,
            pieces: s.pieces + pieces_from(g, sq),
        }),
    decreases 64 - sq,
{
    reveal(ChessGame::board_fen_from);
    if sq == 64 {
        assert(g.board_fen_from(sq, e) =~= Seq::<char>::empty());
        assert(s.pieces + pieces_from(g, sq) =~= s.pieces);
    } else {
        let pre: Seq<char> = match g.piece_at(sq) {
            Some((p, c)) => (if e > 0 { decimal(e) } else { seq![] }).push(p.spec_char_for(c)),
            None => seq![],
        };
        let e2: nat = match g.piece_at(sq) {
            Some(_) => 0,
            None => e + 1,
        };
        let s1 = match g.piece_at(sq) {
            Some((p, c)) => BoardScan { x: s.x + e + 1, pieces: s.pieces.push((c, p, sq)), ..s },
            None => s,
        };
        match g.piece_at(sq) {
            Some((p, c)) => {
                lemma_scan_square(g, sq, e, s, p, c);
            },
            None => {
                assert(pre =~= Seq::<char>::empty());
            },
        }
        assert(scan_over(s, pre) == s1);
        assert(s1.pieces + pieces_from(g, sq + 1) =~= s.pieces + pieces_from(g, sq));
        if sq % 8 == 7 {
            let ds: Seq<char> = if e2 > 0 { decimal(e2) } else { seq![] };
            let sl: Seq<char> = if sq != 63 { seq!['/'] } else { seq![] };
            let rest = g.board_fen_from(sq + 1, 0);
            assert(g.board_fen_from(sq, e) == pre + ds + sl + rest);
            let s2 = BoardScan { x: 8, ..s1 };
            if e2 > 0 {
                lemma_scan_digits(s1, e2);
            } else {
                assert(ds =~= Seq::<char>::empty());
                assert(scan_over(s1, ds) == s1);
            }
            assert(scan_over(s1, ds) == s2);
            let s3 = if sq != 63 { BoardScan { y: s1.y + 1, x: 0, ..s1 } } else { s2 };
            if sq != 63 {
                lemma_scan_slash(s2);
            } else {
                assert(sl =~= Seq::<char>::empty());
                assert(scan_over(s2, sl) == s2);
            }
            assert(scan_over(s2, sl) == s3);
            lemma_scan_board_text(g, sq + 1, 0, s3);
            lemma_scan_over_append(s, pre, ds);
            lemma_scan_over_append(s, pre + ds, sl);
            lemma_scan_over_append(s, pre + ds + sl, rest);
        } else {
            let rest = g.board_fen_from(sq + 1, e2);
            assert(g.board_fen_from(sq, e) == pre + rest);
            lemma_scan_board_text(g, sq + 1, e2, s1);
            lemma_scan_over_append(s, pre, rest);
        }
    }
}

/// The piece bitboard index of a listed piece.
pub open spec fn piece_key(x: (Color, PieceType, int)) -> int {
    x.0.spec_offset() + x.1.spec_index()
}

/// Some entry of `ps` puts a piece of bitboard `k` on square `t`.
pub open spec fn lists(ps: Seq<(Color, PieceType, int)>, k: int, t: int) -> bool {
    exists|j: int| #![trigger ps[j]] 0 <= j < ps.len() && ps[j].2 == t && piece_key(ps[j]) == k
}

/// Placing the pieces of a list on an empty board sets exactly the listed
/// squares, with occupancies that agree with the pieces.
pub proof fn lemma_placed(ps: Seq<(Color, PieceType, int)>)
    requires
        forall|j: int| 0 <= j < ps.len() ==> 0 <= #[trigger] ps[j].2 < 64,
    ensures
        placed(ps).0.len() == 12,
        placed(ps).1.len() == 3,
        forall|k: int, t: int| 0 <= k < 12 ==> #[trigger] has_bit(placed(ps).0[k], t) == lists(ps, k, t),
        placed(ps).1[0] == side_union(placed(ps).0, 0),
        placed(ps).1[1] == side_union(placed(ps).0, 6),
        placed(ps).1[2] == placed(ps).1[0] | placed(ps).1[1],
    decreases ps.len(),
{
    lemma_setb_clrb();
    let (pb, occ) = placed(ps);
    if ps.len() == 0 {
        assert forall|k: int, t: int| 0 <= k < 12 implies #[trigger] has_bit(pb[k], t) == lists(ps, k, t) by {
            crate::bitlemmas::lemma_has_bit_zero(t);
        }
        crate::bitlemmas::lemma_bit_identities();
    } else {
        let q = ps.drop_last();
        assert forall|j: int| 0 <= j < q.len() implies 0 <= #[trigger] q[j].2 < 64 by {
            assert(q[j] == ps[j]);
        }
        lemma_placed(q);
        let (pb0, occ0) = placed(q);
        let x = ps.last();
        let k0 = piece_key(x);
        let sq = x.2;
        assert(0 <= sq < 64) by {
            assert(ps[ps.len() - 1] == x);
        }
        assert(0 <= k0 < 12);
        assert forall|k: int, t: int| 0 <= k < 12 implies #[trigger] has_bit(pb[k], t) == lists(ps, k, t) by {
            assert(has_bit(pb[k], t) == ((k == k0 && t == sq) || has_bit(pb0[k], t)));
            if lists(ps, k, t) {
                let j = choose|j: int| #![trigger ps[j]] 0 <= j < ps.len() && ps[j].2 == t && piece_key(ps[j]) == k;
                if j < ps.len() - 1 {
                    assert(q[j] == ps[j]);
                    assert(lists(q, k, t));
                }
            }
            if lists(q, k, t) {
                let j = choose|j: int| #![trigger q[j]] 0 <= j < q.len() && q[j].2 == t && piece_key(q[j]) == k;
                assert(ps[j] == q[j]);
            }
            if k == k0 && t == sq {
                assert(ps[ps.len() - 1] == x);
            }
        }
        let off = x.0.spec_offset() as int;
        let o = x.0.spec_idx() as int;
        assert forall|t: int| 0 <= t < 64 implies has_bit(side_union(pb, 0), t)
            == has_bit(occ[0], t) by {
            lemma_side_union_bit(pb, 0, t);
            lemma_side_union_bit(pb0, 0, t);
        }
        assert forall|t: int| 0 <= t < 64 implies has_bit(side_union(pb, 6), t) == has_bit(occ[1], t) by {
            lemma_side_union_bit(pb, 6, t);
            lemma_side_union_bit(pb0, 6, t);
        }
        assert forall|t: int| 0 <= t < 64 implies has_bit(occ[0] | occ[1], t) == has_bit(occ[2], t) by {
            lemma_has_bit_or(occ[0], occ[1], t);
            lemma_has_bit_or(occ0[0], occ0[1], t);
        }
        lemma_bits_ext(side_union(pb, 0), occ[0]);
        lemma_bits_ext(side_union(pb, 6), occ[1]);
        lemma_bits_ext(occ[0] | occ[1], occ[2]);
    }
}

/// The board found for a square holds it.
proof fn lemma_first_board_holds(pb: Seq<u64>, sq: int, j: int)
    requires
        0 <= j <= 12,
    ensures
        first_board_from(pb, sq, j) matches Some(i) ==> j <= i < 12 && has_bit(pb[i], sq),
    decreases 12 - j,
{
    if j < 12 {
        lemma_first_board_holds(pb, sq, j + 1);
    }
}

/// The pieces listed from square `sq` on are those the board holds there.
pub proof fn lemma_pieces_from(g: ChessGame, sq: int)
    requires
        0 <= sq <= 64,
    ensures
        forall|j: int| 0 <= j < pieces_from(g, sq).len() ==> sq <= #[trigger] pieces_from(g, sq)[j].2 < 64,
        forall|k: int, t: int| 0 <= k < 12 ==> #[trigger] lists(pieces_from(g, sq), k, t) == (sq <= t < 64
            && g.board_at(t) == Some(k)),
    decreases 64 - sq,
{
    let ps = pieces_from(g, sq);
    if sq == 64 {
        assert forall|k: int, t: int| 0 <= k < 12 implies #[trigger] lists(ps, k, t) == (sq <= t < 64
            && g.board_at(t) == Some(k)) by {}
    } else {
        lemma_pieces_from(g, sq + 1);
        let rest = pieces_from(g, sq + 1);
        lemma_first_board_holds(g.pb(), sq, 0);
        match g.piece_at(sq) {
            Some((p, c)) => {
                let i = g.board_at(sq)->0;
                let x = (c, p, sq);
                assert(ps == seq![x] + rest);
                assert(piece_key(x) == i);
                assert forall|j: int| 0 <= j < ps.len() implies sq <= #[trigger] ps[j].2 < 64 by {
                    if j > 0 {
                        assert(ps[j] == rest[j - 1]);
                    }
                }
                assert forall|k: int, t: int| 0 <= k < 12 implies #[trigger] lists(ps, k, t) == (sq <= t < 64
                    && g.board_at(t) == Some(k)) by {
                    if lists(ps, k, t) {
                        let j = choose|j: int| #![trigger ps[j]] 0 <= j < ps.len() && ps[j].2 == t && piece_key(ps[j]) == k;
                        if j > 0 {
                            assert(ps[j] == rest[j - 1]);
                            assert(lists(rest, k, t));
                        }
                    }
                    if lists(rest, k, t) {
                        let j = choose|j: int| #![trigger rest[j]] 0 <= j < rest.len() && rest[j].2 == t && piece_key(rest[j]) == k;
                        assert(ps[j + 1] == rest[j]);
                    }
                    if t == sq && g.board_at(t) == Some(k) {
                        assert(ps[0] == x);
                    }
                }
            },
            None => {
                assert(ps == rest);
                assert forall|k: int, t: int| 0 <= k < 12 implies #[trigger] lists(ps, k, t) == (sq <= t < 64
                    && g.board_at(t) == Some(k)) by {
                    if t == sq {
                        assert(g.board_at(t) is None);
                    }
                }
            },
        }
    }
}

/// Reading the board text of a consistent game gives a well-formed board
/// with the game's piece and occupancy bitboards.
pub proof fn lemma_board_round_trip(g: ChessGame)
    requires
        g.occupancy_consistent(),
        g.pieces_disjoint(),
    ensures
        scan_board(g.board_fen_from(0, 0)).code == 0,
        scan_board(g.board_fen_from(0, 0)).x == 8,
        scan_board(g.board_fen_from(0, 0)).y == 7,
        placed(scan_board(g.board_fen_from(0, 0)).pieces).0 == g.pb(),
        placed(scan_board(g.board_fen_from(0, 0)).pieces).1 == g.occupancy_bitboards@,
{
    let b = g.board_fen_from(0, 0);
    lemma_scan_board_over(b);
    lemma_scan_board_text(g, 0, 0, scan_start());
    let ps = pieces_from(g, 0);
    assert(scan_start().pieces + ps =~= ps);
    lemma_pieces_from(g, 0);
    lemma_placed(ps);
    let (pb, occ) = placed(ps);
    assert forall|k: int| 0 <= k < 12 implies pb[k] == g.pb()[k] by {
        assert forall|t: int| 0 <= t < 64 implies has_bit(pb[k], t) == has_bit(g.pb()[k], t) by {
            lemma_first_board_holds(g.pb(), t, 0);
            if has_bit(g.pb()[k], t) {
                lemma_piece_on(&g, k, t);
            }
            assert(has_bit(pb[k], t) == lists(ps, k, t));
        }
        lemma_bits_ext(pb[k], g.pb()[k]);
    }
    assert(pb =~= g.pb());
    assert(occ =~= g.occupancy_bitboards@);
}

/// No character of the board text is white space.
proof fn lemma_board_text_quiet(g: ChessGame, sq: int, e: nat)
    requires
        0 <= sq <= 64,
        sq < 64 ==> e <= sq % 8,
        sq == 64 ==> e == 0,
    ensures
        forall|i: int| 0 <= i < g.board_fen_from(sq, e).len() ==> !is_white_space(
            #[trigger] g.board_fen_from(sq, e)[i],
        ),
    decreases 64 - sq,
{
    reveal(ChessGame::board_fen_from);
    if sq < 64 {
        let t = g.board_fen_from(sq, e);
        let pre: Seq<char> = match g.piece_at(sq) {
            Some((p, c)) => (if e > 0 { decimal(e) } else { seq![] }).push(p.spec_char_for(c)),
            None => seq![],
        };
        let e2: nat = match g.piece_at(sq) {
            Some(_) => 0,
            None => e + 1,
        };
        let ds: Seq<char> = if e2 > 0 { decimal(e2) } else { seq![] };
        let sl: Seq<char> = if sq != 63 { seq!['/'] } else { seq![] };
        let de: Seq<char> = if e > 0 { decimal(e) } else { seq![] };
        if e > 0 {
            assert(de =~= seq![(48 + e) as char]);
        } else {
            assert(de =~= Seq::<char>::empty());
        }
        if e2 > 0 {
            assert(ds =~= seq![(48 + e2) as char]);
        } else {
            assert(ds =~= Seq::<char>::empty());
        }
        assert forall|i: int| 0 <= i < pre.len() implies !is_white_space(#[trigger] pre[i]) by {
            match g.piece_at(sq) {
                Some((p, c)) => {
                    if i < de.len() {
                        assert(pre[i] == de[i]);
                    } else {
                        assert(pre[i] == p.spec_char_for(c));
                    }
                },
                None => {},
            }
        }
        if sq % 8 == 7 {
            lemma_board_text_quiet(g, sq + 1, 0);
            let rest = g.board_fen_from(sq + 1, 0);
            assert(t == pre + ds + sl + rest);
            assert forall|i: int| 0 <= i < t.len() implies !is_white_space(#[trigger] t[i]) by {
                if i < pre.len() {
                    assert(t[i] == pre[i]);
                } else if i < pre.len() + ds.len() {
                    assert(t[i] == ds[i - pre.len()]);
                } else if i < pre.len() + ds.len() + sl.len() {
                    assert(t[i] == sl[i - pre.len() - ds.len()]);
                } else {
                    assert(t[i] == rest[i - pre.len() - ds.len() - sl.len()]);
                }
            }
        } else {
            lemma_board_text_quiet(g, sq + 1, e2);
            let rest = g.board_fen_from(sq + 1, e2);
            assert(t == pre + rest);
            assert forall|i: int| 0 <= i < t.len() implies !is_white_space(#[trigger] t[i]) by {
                if i < pre.len() {
                    assert(t[i] == pre[i]);
                } else {
                    assert(t[i] == rest[i - pre.len()]);
                }
            }
        }
    }
}

/// The board text from square `sq` on is at most three characters per
/// square left.
proof fn lemma_board_text_len(g: ChessGame, sq: int, e: nat)
    requires
        0 <= sq <= 64,
        sq < 64 ==> e <= sq % 8,
        sq == 64 ==> e == 0,
    ensures
        g.board_fen_from(sq, e).len() <= 3 * (64 - sq),
    decreases 64 - sq,
{
    reveal(ChessGame::board_fen_from);
    if sq < 64 {
        let t = g.board_fen_from(sq, e);
        let pre: Seq<char> = match g.piece_at(sq) {
            Some((p, c)) => (if e > 0 { decimal(e) } else { seq![] }).push(p.spec_char_for(c)),
            None => seq![],
        };
        let e2: nat = match g.piece_at(sq) {
            Some(_) => 0,
            None => e + 1,
        };
        let ds: Seq<char> = if e2 > 0 { decimal(e2) } else { seq![] };
        let sl: Seq<char> = if sq != 63 { seq!['/'] } else { seq![] };
        if e > 0 {
            assert(decimal(e).len() == 1);
        }
        if e2 > 0 {
            assert(decimal(e2).len() == 1);
        }
        assert(pre.len() + ds.len() <= 2);
        if sq % 8 == 7 {
            lemma_board_text_len(g, sq + 1, 0);
            assert(t == pre + ds + sl + g.board_fen_from(sq + 1, 0));
        } else {
            lemma_board_text_len(g, sq + 1, e2);
            assert(t == pre + g.board_fen_from(sq + 1, e2));
        }
    }
}

/// The first space from `i` on is at `j` when the characters before it are
/// not spaces.
proof fn lemma_find_space_at(t: Seq<char>, i: int, j: int)
    requires
        0 <= i <= j <= t.len(),
        forall|m: int| i <= m < j ==> #[trigger] t[m] != ' ',
        j < t.len() ==> t[j] == ' ',
    ensures
        find_space(t, i) == j,
    decreases j - i,
{
    if i < j {
        lemma_find_space_at(t, i + 1, j);
    }
}

/// Reading the castling field of a game's FEN text gives its rights back.
proof fn lemma_castling_round_trip(g: ChessGame, k: &Constants)
    ensures
        scan_castling(k, g.castling_fen()).0 == g.can_white_castle_short,
        scan_castling(k, g.castling_fen()).1 == g.can_white_castle_long,
        scan_castling(k, g.castling_fen()).2 == g.can_black_castle_short,
        scan_castling(k, g.castling_fen()).3 == g.can_black_castle_long,
        scan_castling(k, g.castling_fen()).4 == key_if(g.can_white_castle_short, k.zobrist_castling_rights@[0])
            ^ key_if(g.can_white_castle_long, k.zobrist_castling_rights@[1])
            ^ key_if(g.can_black_castle_short, k.zobrist_castling_rights@[2])
            ^ key_if(g.can_black_castle_long, k.zobrist_castling_rights@[3]),
        g.castling_fen().len() >= 1,
        forall|i: int| 0 <= i < g.castling_fen().len() ==> !is_white_space(#[trigger] g.castling_fen()[i]),
{
    let a1: Seq<char> = if g.can_white_castle_short { seq!['K'] } else { seq![] };
    let a2: Seq<char> = a1 + (if g.can_white_castle_long { seq!['Q'] } else { seq![] });
    let a3: Seq<char> = a2 + (if g.can_black_castle_short { seq!['k'] } else { seq![] });
    let a4: Seq<char> = a3 + (if g.can_black_castle_long { seq!['q'] } else { seq![] });
    let e = Seq::<char>::empty();
    assert(scan_castling(k, e) == (false, false, false, false, 0u64));
    if g.can_white_castle_short {
        assert(a1 =~= e.push('K'));
        assert(e.push('K').drop_last() =~= e);
        assert(a1.last() == 'K');
        assert(a1.len() == 1);
    } else {
        assert(a1 =~= e);
    }
    if g.can_white_castle_long {
        assert(a2 =~= a1.push('Q'));
        assert(a1.push('Q').drop_last() =~= a1);
    } else {
        assert(a2 =~= a1);
    }
    if g.can_black_castle_short {
        assert(a3 =~= a2.push('k'));
        assert(a2.push('k').drop_last() =~= a2);
    } else {
        assert(a3 =~= a2);
    }
    if g.can_black_castle_long {
        assert(a4 =~= a3.push('q'));
        assert(a3.push('q').drop_last() =~= a3);
    } else {
        assert(a4 =~= a3);
    }
    let ws = g.can_white_castle_short;
    let wl = g.can_white_castle_long;
    let bs = g.can_black_castle_short;
    let bl = g.can_black_castle_long;
    let cr = k.zobrist_castling_rights@;
    let c0 = key_if(ws, cr[0]);
    let c1 = key_if(wl, cr[1]);
    let c2 = key_if(bs, cr[2]);
    let c3 = key_if(bl, cr[3]);
    lemma_xor_swap(cr[0], 0, 0);
    lemma_xor_swap(0, 0, 0);
    let r1 = scan_castling(k, a1);
    assert(r1.0 == ws && !r1.1 && !r1.2 && !r1.3 && r1.4 == c0);
    lemma_xor_swap(c0, 0, 0);
    let r2 = scan_castling(k, a2);
    assert(r2.0 == ws && r2.1 == wl && !r2.2 && !r2.3 && r2.4 == c0 ^ c1);
    lemma_xor_swap(c0 ^ c1, 0, 0);
    let r3 = scan_castling(k, a3);
    assert(r3.0 == ws && r3.1 == wl && r3.2 == bs && !r3.3 && r3.4 == c0 ^ c1 ^ c2);
    lemma_xor_swap(c0 ^ c1 ^ c2, 0, 0);
    let r4 = scan_castling(k, a4);
    assert(r4.0 == ws && r4.1 == wl && r4.2 == bs && r4.3 == bl && r4.4 == c0 ^ c1 ^ c2 ^ c3);
    assert(g.castling_fen() == (if a4.len() == 0 { seq!['-'] } else { a4 }));
    if a4.len() == 0 {
        assert(seq!['-'].drop_last() =~= e);
    }
    assert forall|i: int| 0 <= i < a4.len() implies !is_white_space(#[trigger] a4[i]) by {
        assert(a4[i] == 'K' || a4[i] == 'Q' || a4[i] == 'k' || a4[i] == 'q');
    }
}

/// The fields of a text made of a board, a side to move, castling rights
/// and an en-passant target, each free of white space and separated by
/// single spaces.
proof fn lemma_fen_fields(b: Seq<char>, wc: char, c: Seq<char>, e: Seq<char>)
    requires
        b.len() > 0,
        c.len() > 0,
        e.len() > 0,
        !is_white_space(wc),
        forall|i: int| 0 <= i < b.len() ==> !is_white_space(#[trigger] b[i]),
        forall|i: int| 0 <= i < c.len() ==> !is_white_space(#[trigger] c[i]),
        forall|i: int| 0 <= i < e.len() ==> !is_white_space(#[trigger] e[i]),
    ensures
        ({
            let t = b + seq![' ', wc, ' '] + c + seq![' '] + e;
            let nb = b.len() as int;
            let nc = c.len() as int;
            &&& trimmed(t) == t
            &&& fen_board_end(t) == nb
            &&& fen_turn_bounds(t) == (nb + 1, nb + 2)
            &&& fen_castling_bounds(t) == (nb + 3, nb + 3 + nc)
            &&& fen_ep_bounds(t) == (nb + 4 + nc, t.len() as int)
            &&& t.subrange(0, nb) == b
            &&& t.subrange(nb + 1, nb + 2) == seq![wc]
            &&& t.subrange(nb + 3, nb + 3 + nc) == c
            &&& t.subrange(nb + 4 + nc, t.len() as int) == e
        }),
{
    let t = b + seq![' ', wc, ' '] + c + seq![' '] + e;
    let nb = b.len() as int;
    let nc = c.len() as int;
    let n = t.len() as int;
    assert(n == nb + 4 + nc + e.len());
    assert forall|m: int| 0 <= m < nb implies #[trigger] t[m] != ' ' by {
        assert(t[m] == b[m]);
    }
    assert(t[nb] == ' ');
    assert(t[nb + 1] == wc);
    assert(t[nb + 2] == ' ');
    assert forall|m: int| nb + 3 <= m < nb + 3 + nc implies #[trigger] t[m] != ' ' by {
        assert(t[m] == c[m - nb - 3]);
    }
    assert(t[nb + 3 + nc] == ' ');
    assert forall|m: int| nb + 4 + nc <= m < n implies #[trigger] t[m] != ' ' by {
        assert(t[m] == e[m - nb - 4 - nc]);
    }
    assert(t[0] == b[0]);
    assert(skip_space(t, 0) == 0);
    assert(t[n - 1] == e[e.len() - 1]);
    assert(skip_space_back(t, n, 0) == n);
    assert(trimmed(t) =~= t);
    lemma_find_space_at(t, 0, nb);
    lemma_find_space_at(t, nb + 1, nb + 2);
    lemma_find_space_at(t, nb + 3, nb + 3 + nc);
    lemma_find_space_at(t, nb + 4 + nc, n);
    assert(t.subrange(0, nb) =~= b);
    assert(t.subrange(nb + 1, nb + 2) =~= seq![wc]);
    assert(t.subrange(nb + 3, nb + 3 + nc) =~= c);
    assert(t.subrange(nb + 4 + nc, n) =~= e);
}

/// The side-to-move letter names the side.
proof fn lemma_turn_letter(white: bool)
    ensures
        turn_of(seq![if white { 'w' } else { 'b' }]) == Some(white),
{
    let f = seq![if white { 'w' } else { 'b' }];
    if !white {
        assert(f[0] != seq!['w'][0]);
        assert(f[0] != seq!['W'][0]);
        assert(f =~= seq!['b']);
    } else {
        assert(f =~= seq!['w']);
    }
}

/// Exporting a consistent game as FEN text and reading the text back gives
/// the game's board, side to move, castling rights and en-passant target:
/// the text reads successfully, and `h.fen_position` of it (what
/// `import_fen` sets `h` to) agrees with `g` on all of these.
pub proof fn lemma_fen_round_trip(g: ChessGame, h: ChessGame)
    requires
        g.occupancy_consistent(),
        g.pieces_disjoint(),
        g.en_passant_target matches Some(sq) ==> sq < 64,
    ensures
        fen_ok(g.fen_text()),
        fen_board_on_board(g.fen_text()),
        h.fen_position(g.fen_text()).pb == g.pb(),
        h.fen_position(g.fen_text()).occ == g.occupancy_bitboards@,
        h.fen_position(g.fen_text()).white_to_move == g.white_to_move,
        h.fen_position(g.fen_text()).can_white_castle_short == g.can_white_castle_short,
        h.fen_position(g.fen_text()).can_white_castle_long == g.can_white_castle_long,
        h.fen_position(g.fen_text()).can_black_castle_short == g.can_black_castle_short,
        h.fen_position(g.fen_text()).can_black_castle_long == g.can_black_castle_long,
        h.fen_position(g.fen_text()).en_passant_target == g.en_passant_target,
        h.fen_position(g.fen_text()).zobrist_hash == full_hash(h.bitboard_constants, g.position()),
        g.fen_text().len() <= 256,
        crate::fen::fen_ep_fits(g.fen_text()),
{
    let k = h.bitboard_constants;
    let b = g.board_fen_from(0, 0);
    let wc = if g.white_to_move { 'w' } else { 'b' };
    let c = g.castling_fen();
    let e: Seq<char> = match g.en_passant_target {
        Some(sq) => coord_text(sq as int),
        None => seq!['-'],
    };
    let t = g.fen_text();
    assert(t =~= b + seq![' ', wc, ' '] + c + seq![' '] + e);
    lemma_board_round_trip(g);
    lemma_board_text_quiet(g, 0, 0);
    lemma_castling_round_trip(g, k);
    lemma_scan_board_over(b);
    assert(b.len() > 0) by {
        if b.len() == 0 {
            assert(scan_over(scan_start(), b) == scan_start());
        }
    }
    assert forall|i: int| 0 <= i < e.len() implies !is_white_space(#[trigger] e[i]) by {
        match g.en_passant_target {
            Some(sq) => {
                assert(e[0] == (97 + sq % 8) as char);
                assert(e[1] == (48 + 8 - sq / 8) as char);
            },
            None => {},
        }
    }
    lemma_fen_fields(b, wc, c, e);
    lemma_turn_letter(g.white_to_move);
    lemma_board_text_len(g, 0, 0);
    match g.en_passant_target {
        Some(sq) => {
            lemma_coord_round_trip(sq as int);
        },
        None => {
            assert(parse_coord(e) is None);
        },
    }
    crate::text::lemma_utf8_len(e);
    if e.len() == 1 {
        assert(crate::text::ascii_text(e));
    }
    assert(board_code(b) == 0);
    let ps = pieces_from(g, 0);
    lemma_scan_board_text(g, 0, 0, scan_start());
    assert(scan_start().pieces + ps =~= ps);
    assert(scan_board(b).pieces == ps);
    lemma_pieces_from(g, 0);
    lemma_pieces_from_sorted(g, 0);
    lemma_pieces_hash(k, ps);
    let cr = k.zobrist_castling_rights@;
    let x = pieces_hash(k, ps) ^ (if g.white_to_move { 0u64 } else { k.zobrist_to_move });
    let c0 = key_if(g.can_white_castle_short, cr[0]);
    let c1 = key_if(g.can_white_castle_long, cr[1]);
    let c2 = key_if(g.can_black_castle_short, cr[2]);
    let c3 = key_if(g.can_black_castle_long, cr[3]);
    lemma_xor_swap(x, (c0 ^ c1) ^ c2, c3);
    lemma_xor_swap(x, c0 ^ c1, c2);
    lemma_xor_swap(x, c0, c1);
    let ek = key_if(g.en_passant_target is Some, k.zobrist_en_passant@[(g.en_passant_target->0 % 8) as int]);
    assert(h.fen_position(t).zobrist_hash == x ^ (c0 ^ c1 ^ c2 ^ c3) ^ ek);
}

/// Combining the keys of listed pieces on distinct squares is hashing the
/// board they make.
pub proof fn lemma_pieces_hash(k: &Constants, ps: Seq<(Color, PieceType, int)>)
    requires
        forall|j: int| 0 <= j < ps.len() ==> 0 <= #[trigger] ps[j].2 < 64,
        forall|i: int, j: int| 0 <= i < j < ps.len() ==> #[trigger] ps[i].2 != #[trigger] ps[j].2,
    ensures
        pieces_hash(k, ps) == board_hash(k, placed(ps).0),
    decreases ps.len(),
{
    lemma_placed(ps);
    if ps.len() == 0 {
        let z = Seq::new(12, |i: int| 0u64);
        assert(placed(ps).0 == z);
        lemma_board_hash_empty(k, 768);
    } else {
        let q = ps.drop_last();
        assert forall|j: int| 0 <= j < q.len() implies 0 <= #[trigger] q[j].2 < 64 by {
            assert(q[j] == ps[j]);
        }
        assert forall|i: int, j: int| 0 <= i < j < q.len() implies #[trigger] q[i].2 != #[trigger] q[j].2 by {
            assert(q[i] == ps[i] && q[j] == ps[j]);
        }
        lemma_pieces_hash(k, q);
        lemma_placed(q);
        let x = ps.last();
        let k0 = piece_key(x);
        let sq = x.2;
        assert(ps[ps.len() - 1] == x);
        assert(!lists(q, k0, sq)) by {
            if lists(q, k0, sq) {
                let j = choose|j: int| #![trigger q[j]] 0 <= j < q.len() && q[j].2 == sq && piece_key(q[j]) == k0;
                assert(ps[j] == q[j]);
            }
        }
        let pb0 = placed(q).0;
        lemma_setb_clrb();
        lemma_board_hash_toggle(k, pb0, k0, sq, setb(pb0[k0], sq));
    }
}

/// The hash of empty boards is zero.
proof fn lemma_board_hash_empty(k: &Constants, n: nat)
    requires
        n <= 768,
    ensures
        crate::hashing::board_hash_upto(k, Seq::new(12, |i: int| 0u64), n) == 0,
    decreases n,
{
    if n > 0 {
        lemma_board_hash_empty(k, (n - 1) as nat);
        let m: int = n - 1;
        crate::bitlemmas::lemma_has_bit_zero(m % 64);
        crate::bitlemmas::lemma_bit_identities();
    }
}

/// The pieces listed from a square on stand on increasing squares.
proof fn lemma_pieces_from_sorted(g: ChessGame, sq: int)
    requires
        0 <= sq <= 64,
    ensures
        forall|i: int, j: int| 0 <= i < j < pieces_from(g, sq).len() ==> #[trigger] pieces_from(g, sq)[i].2
            < #[trigger] pieces_from(g, sq)[j].2,
    decreases 64 - sq,
{
    if sq < 64 {
        lemma_pieces_from_sorted(g, sq + 1);
        lemma_pieces_from(g, sq + 1);
        let ps = pieces_from(g, sq);
        let rest = pieces_from(g, sq + 1);
        match g.piece_at(sq) {
            Some((p, c)) => {
                assert(ps == seq![(c, p, sq)] + rest);
                assert forall|i: int, j: int| 0 <= i < j < ps.len() implies #[trigger] ps[i].2 < #[trigger] ps[j].2 by {
                    assert(ps[j] == rest[j - 1]);
                    if i > 0 {
                        assert(ps[i] == rest[i - 1]);
                    }
                }
            },
            None => {},
        }
    }
}

/// The pieces read so far stand on the board in increasing square order,
/// all before the current square.
pub open spec fn scan_ordered(s: BoardScan) -> bool {
    &&& s.y >= 0
    &&& s.x >= 0
    &&& forall|j: int| 0 <= j < s.pieces.len() ==> 0 <= #[trigger] s.pieces[j].2 < 64 && s.pieces[j].2 < s.y * 8 + s.x
    &&& forall|i: int, j: int| 0 <= i < j < s.pieces.len() ==> #[trigger] s.pieces[i].2 < #[trigger] s.pieces[j].2
}

/// Reading one more character keeps the pieces in order.
proof fn lemma_scan_step_ordered(s: BoardScan, c: char)
    requires
        scan_ordered(s),
    ensures
        scan_ordered(scan_step(s, c)),
{
    let n = scan_step(s, c);
    if s.code == 0 && c != '/' && !('0' <= c <= '9') && piece_of_char(c) is Some && s.y * 8 + s.x < 64 {
        let sq = s.y * 8 + s.x;
        assert forall|j: int| 0 <= j < n.pieces.len() implies 0 <= #[trigger] n.pieces[j].2 < 64 && n.pieces[j].2
            < n.y * 8 + n.x by {
            if j < s.pieces.len() {
                assert(n.pieces[j] == s.pieces[j]);
            }
        }
        assert forall|i: int, j: int| 0 <= i < j < n.pieces.len() implies #[trigger] n.pieces[i].2
            < #[trigger] n.pieces[j].2 by {
            assert(n.pieces[i] == s.pieces[i]);
            if j < s.pieces.len() {
                assert(n.pieces[j] == s.pieces[j]);
            }
        }
    }
}

/// Reading any text keeps the pieces in order.
pub proof fn lemma_scan_over_ordered(s: BoardScan, t: Seq<char>)
    requires
        scan_ordered(s),
    ensures
        scan_ordered(scan_over(s, t)),
    decreases t.len(),
{
    if t.len() > 0 {
        lemma_scan_over_ordered(s, t.drop_last());
        lemma_scan_step_ordered(scan_over(s, t.drop_last()), t.last());
    }
}

/// No castling letter appears twice in `f`.
pub open spec fn castle_letters_once(f: Seq<char>) -> bool {
    forall|i: int, j: int|
        0 <= i < j < f.len() && #[trigger] f[i] == #[trigger] f[j] ==> !(f[i] == 'K' || f[i] == 'Q' || f[i]
            == 'k' || f[i] == 'q')
}

/// `f` with `c` appended contains `x` when `f` does or `c` is `x`.
proof fn lemma_push_contains(f: Seq<char>, c: char, x: char)
    ensures
        f.push(c).contains(x) == (f.contains(x) || c == x),
{
    let g = f.push(c);
    if g.contains(x) {
        let j = choose|j: int| 0 <= j < g.len() && g[j] == x;
        if j < f.len() {
            assert(f[j] == g[j]);
        }
    }
    if f.contains(x) {
        let j = choose|j: int| 0 <= j < f.len() && f[j] == x;
        assert(g[j] == f[j]);
    }
    if c == x {
        assert(g[f.len() as int] == c);
    }
}

/// Reading a castling field that names no right twice grants the rights
/// it names and combines exactly their keys.
pub proof fn lemma_scan_castling_hash(k: &Constants, f: Seq<char>)
    requires
        castle_letters_once(f),
    ensures
        scan_castling(k, f).0 == f.contains('K'),
        scan_castling(k, f).1 == f.contains('Q'),
        scan_castling(k, f).2 == f.contains('k'),
        scan_castling(k, f).3 == f.contains('q'),
        scan_castling(k, f).4 == key_if(scan_castling(k, f).0, k.zobrist_castling_rights@[0])
            ^ key_if(scan_castling(k, f).1, k.zobrist_castling_rights@[1])
            ^ key_if(scan_castling(k, f).2, k.zobrist_castling_rights@[2])
            ^ key_if(scan_castling(k, f).3, k.zobrist_castling_rights@[3]),
    decreases f.len(),
{
    let cr = k.zobrist_castling_rights@;
    if f.len() == 0 {
        lemma_xor_swap(0, 0, 0);
    } else {
        let q = f.drop_last();
        let c = f.last();
        assert(f =~= q.push(c));
        assert forall|i: int, j: int| 0 <= i < j < q.len() && #[trigger] q[i] == #[trigger] q[j] implies !(q[i]
            == 'K' || q[i] == 'Q' || q[i] == 'k' || q[i] == 'q') by {
            assert(q[i] == f[i] && q[j] == f[j]);
        }
        lemma_scan_castling_hash(k, q);
        lemma_push_contains(q, c, 'K');
        lemma_push_contains(q, c, 'Q');
        lemma_push_contains(q, c, 'k');
        lemma_push_contains(q, c, 'q');
        let p = scan_castling(k, q);
        let c0 = key_if(p.0, cr[0]);
        let c1 = key_if(p.1, cr[1]);
        let c2 = key_if(p.2, cr[2]);
        let c3 = key_if(p.3, cr[3]);
        if c == 'K' || c == 'Q' || c == 'k' || c == 'q' {
            assert(!q.contains(c)) by {
                if q.contains(c) {
                    let j = choose|j: int| 0 <= j < q.len() && q[j] == c;
                    assert(f[j] == q[j] && f[f.len() - 1] == c);
                }
            }
        }
        if c == 'K' {
            lemma_xor_swap((0u64 ^ c1) ^ c2, c3, cr[0]);
            lemma_xor_swap(0u64 ^ c1, c2, cr[0]);
            lemma_xor_swap(0u64, c1, cr[0]);
            lemma_xor_swap(cr[0], 0, 0);
        } else if c == 'Q' {
            lemma_xor_swap((c0 ^ 0u64) ^ c2, c3, cr[1]);
            lemma_xor_swap(c0 ^ 0u64, c2, cr[1]);
            lemma_xor_swap(c0, 0, cr[1]);
        } else if c == 'k' {
            lemma_xor_swap((c0 ^ c1) ^ 0u64, c3, cr[2]);
            lemma_xor_swap(c0 ^ c1, 0, cr[2]);
        } else if c == 'q' {
            lemma_xor_swap((c0 ^ c1) ^ c2, 0, cr[3]);
        }
    }
}

/// Reading a FEN text that gives all four fields (board, side to move,
/// castling rights, en-passant target) and names no castling right twice
/// sets the hash to the hash of the position read, computed from scratch.
pub proof fn lemma_fen_hash(g: ChessGame, t: Seq<char>)
    requires
        fen_ok(t),
        fen_castling_bounds(t).1 < trimmed(t).len(),
        castle_letters_once(trimmed(t).subrange(fen_castling_bounds(t).0, fen_castling_bounds(t).1)),
    ensures
        g.fen_position(t).zobrist_hash == full_hash(g.bitboard_constants, g.fen_position(t)),
{
    let k = g.bitboard_constants;
    let tt = trimmed(t);
    let (ts, te) = fen_turn_bounds(t);
    let (cs, ce) = fen_castling_bounds(t);
    lemma_find_space_bounds(tt, cs);
    assert(te < tt.len());
    let b = tt.subrange(0, fen_board_end(t));
    let ps = scan_board(b).pieces;
    lemma_scan_board_over(b);
    lemma_scan_over_ordered(scan_start(), b);
    lemma_pieces_hash(k, ps);
    let f = tt.subrange(cs, ce);
    lemma_scan_castling_hash(k, f);
    let cast = scan_castling(k, f);
    let cr = k.zobrist_castling_rights@;
    let white = turn_of(tt.subrange(ts, te))->0;
    let x = pieces_hash(k, ps) ^ (if white { 0u64 } else { k.zobrist_to_move });
    let c0 = key_if(cast.0, cr[0]);
    let c1 = key_if(cast.1, cr[1]);
    let c2 = key_if(cast.2, cr[2]);
    let c3 = key_if(cast.3, cr[3]);
    lemma_xor_swap(x, (c0 ^ c1) ^ c2, c3);
    lemma_xor_swap(x, c0 ^ c1, c2);
    lemma_xor_swap(x, c0, c1);
}

} // verus!
