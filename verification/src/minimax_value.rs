//! The plain minimax value of a position, and where the alpha-beta search
//! with its transposition table is known to return it.
use vstd::prelude::*;
use crate::chess_game::ChessGame;
use crate::chess_move::Move;
use crate::search::{search, search_moves, terminal_value, child_game, cached};
use crate::transposition_table_entry::TranspositionTableEntry;
use crate::search::game_with;
use crate::position::Position;
use crate::runtime_calculated_constants::Constants;

verus! {

/// The minimax value of `g` to depth `d`: without legal moves, the lowest
/// value when white is mated, the highest when black is, 0 in stalemate; at
/// depth 0 the evaluation; else the best value of the positions after the
/// legal moves, searched one level less (white maximising, black
/// minimising).
pub open spec fn minimax_value(g: ChessGame, d: nat) -> i64
    decreases d, 1int, 0int,
{
    let moves = g.legal_moves_spec();
    if moves.len() == 0 {
        terminal_value(g)
    } else if d == 0 {
        g.evaluation() as i64
    } else {
        best_value(g, moves, d, 0)
    }
}

/// The best minimax value among the positions after `moves[i..]`, to depth
/// `d - 1`, for the side to move in `g` (the worst value for it when there
/// are none).
pub open spec fn best_value(g: ChessGame, moves: Seq<Move>, d: nat, i: int) -> i64
    decreases d, 0int, moves.len() - i,
{
    if i >= moves.len() || i < 0 || d == 0 {
        if g.white_to_move {
            i64::MIN
        } else {
            i64::MAX
        }
    } else {
        let v = minimax_value(child_game(g, moves[i]), (d - 1) as nat);
        let rest = best_value(g, moves, d, i + 1);
        if g.white_to_move {
            if v >= rest {
                v
            } else {
                rest
            }
        } else {
            if v <= rest {
                v
            } else {
                rest
            }
        }
    }
}

/// At depth 0, with an empty table, the search returns the minimax value and
/// leaves the table empty.
proof fn lemma_search_depth0(g: ChessGame, alpha: i64, beta: i64)
    ensures
        search(g, Map::empty(), 0, alpha, beta).0 == minimax_value(g, 0),
        search(g, Map::empty(), 0, alpha, beta).2 == Map::<u64, TranspositionTableEntry>::empty(),
{
    assert(cached(g, Map::empty(), 0, alpha, beta) is None);
}

/// One level above depth 0, with an empty table, the loop over the moves
/// keeps the best value so far and the table empty: the window never cuts
/// it short (it is open on the side that would).
proof fn lemma_search_moves_depth1(
    g: ChessGame,
    moves: Seq<Move>,
    i: int,
    alpha: i64,
    beta: i64,
    best: i64,
    bm: Option<Move>,
)
    requires
        0 <= i <= moves.len(),
        g.white_to_move ==> beta == i64::MAX,
        !g.white_to_move ==> alpha == i64::MIN,
        bm matches Some(m) && moves.contains(m) && (minimax_value(child_game(g, m), 0) == best || best
            == worst(g)),
    ensures
        ({
            let r = search_moves(g, moves, i, 1, alpha, beta, best, bm, Map::empty());
            let b = best_value(g, moves, 1, i);
            &&& r.4 == Map::<u64, TranspositionTableEntry>::empty()
            &&& r.1 matches Some(m) && moves.contains(m) && (minimax_value(child_game(g, m), 0) == r.0
                || r.0 == worst(g))
            &&& g.white_to_move ==> r.0 == (if best >= b { best } else { b })
            &&& !g.white_to_move ==> r.0 == (if best <= b { best } else { b })
        }),
    decreases moves.len() - i,
{
    if i < moves.len() {
        let m = moves[i];
        let c = child_game(g, m);
        lemma_search_depth0(c, alpha, beta);
        let v = search(c, Map::empty(), 0, alpha, beta).0;
        assert(moves.contains(m));
        if g.white_to_move {
            let best1 = if v > best { v } else { best };
            let alpha1 = if alpha >= best1 { alpha } else { best1 };
            let bm1 = if v > best { Some(m) } else { bm };
            lemma_search_moves_depth1(g, moves, i + 1, alpha1, beta, best1, bm1);
        } else {
            let best1 = if v < best { v } else { best };
            let beta1 = if beta <= best1 { beta } else { best1 };
            let bm1 = if v < best { Some(m) } else { bm };
            lemma_search_moves_depth1(g, moves, i + 1, alpha, beta1, best1, bm1);
        }
    }
}

/// Alpha-beta search with an empty transposition table and the full window
/// returns the minimax value at depth 0 and 1.
pub proof fn lemma_search_is_minimax(g: ChessGame, d: nat)
    requires
        d <= 1,
    ensures
        search(g, Map::empty(), d as u32, i64::MIN, i64::MAX).0 == minimax_value(g, d),
{
    if d == 0 {
        lemma_search_depth0(g, i64::MIN, i64::MAX);
    } else {
        let moves = g.legal_moves_spec();
        assert(cached(g, Map::empty(), 1, i64::MIN, i64::MAX) is None);
        if moves.len() > 0 {
            let start = if g.white_to_move { i64::MIN } else { i64::MAX };
            lemma_search_moves_depth1(g, moves, 0, i64::MIN, i64::MAX, start, Some(moves[0]));
        }
    }
}

/// The worst value for the side to move in `g`.
pub open spec fn worst(g: ChessGame) -> i64 {
    if g.white_to_move {
        i64::MIN
    } else {
        i64::MAX
    }
}

/// The best value from `moves[i..]` is at least as good as each of them.
proof fn lemma_best_value_bounds(g: ChessGame, moves: Seq<Move>, d: nat, i: int, j: int)
    requires
        0 <= i <= j < moves.len(),
        d >= 1,
    ensures
        g.white_to_move ==> minimax_value(child_game(g, moves[j]), (d - 1) as nat) <= best_value(g, moves, d, i),
        !g.white_to_move ==> minimax_value(child_game(g, moves[j]), (d - 1) as nat) >= best_value(g, moves, d, i),
    decreases j - i,
{
    if i < j {
        lemma_best_value_bounds(g, moves, d, i + 1, j);
    }
}

/// Alpha-beta search with an empty transposition table and the full window,
/// at depth 1, names a legal move whose position has the minimax value.
pub proof fn lemma_search_best_move(g: ChessGame)
    requires
        g.legal_moves_spec().len() > 0,
    ensures
        search(g, Map::empty(), 1, i64::MIN, i64::MAX).1 matches Some(m) && g.legal_moves_spec().contains(m)
            && minimax_value(child_game(g, m), 0) == minimax_value(g, 1),
{
    let moves = g.legal_moves_spec();
    assert(cached(g, Map::empty(), 1, i64::MIN, i64::MAX) is None);
    assert(moves.contains(moves[0]));
    lemma_search_moves_depth1(g, moves, 0, i64::MIN, i64::MAX, worst(g), Some(moves[0]));
    lemma_search_is_minimax(g, 1);
    let m = search(g, Map::empty(), 1, i64::MIN, i64::MAX).1->0;
    let j = choose|j: int| 0 <= j < moves.len() && moves[j] == m;
    lemma_best_value_bounds(g, moves, 1, 0, j);
}

/// `base` with its first `n` elements taken from `s`.
pub open spec fn array_with<const N: usize>(base: [u64; N], s: Seq<u64>, n: nat) -> [u64; N]
    decreases n,
{
    if n == 0 {
        base
    } else {
        vstd::array::spec_array_update(array_with(base, s, (n - 1) as nat), n - 1, s[n - 1])
    }
}

proof fn lemma_array_with<const N: usize>(base: [u64; N], s: Seq<u64>, n: nat)
    requires
        s.len() == N,
        n <= N,
    ensures
        array_with(base, s, n)@ == s.take(n as int) + base@.skip(n as int),
    decreases n,
{
    broadcast use vstd::array::group_array_axioms;
    if n > 0 {
        lemma_array_with(base, s, (n - 1) as nat);
        assert(s.take(n as int) + base@.skip(n as int) =~= (s.take(n - 1) + base@.skip(n - 1)).update(n - 1, s[n - 1]));
    } else {
        assert(s.take(0) + base@.skip(0) =~= base@);
    }
}

/// Some game has any position whose boards have the usual counts, with the
/// tables of `g`.
pub proof fn lemma_game_with(g: ChessGame, p: Position)
    requires
        p.pb.len() == 12,
        p.occ.len() == 3,
    ensures
        game_with(p, g.bitboard_constants).position() == p,
        game_with(p, g.bitboard_constants).bitboard_constants == g.bitboard_constants,
{
    broadcast use vstd::array::group_array_axioms;
    lemma_array_with(g.piece_bitboards, p.pb, 12);
    lemma_array_with(g.occupancy_bitboards, p.occ, 3);
    assert(p.pb.take(12) + g.piece_bitboards@.skip(12) =~= p.pb);
    assert(p.occ.take(3) + g.occupancy_bitboards@.skip(3) =~= p.occ);
    let w = ChessGame {
        piece_bitboards: array_with(g.piece_bitboards, p.pb, 12),
        occupancy_bitboards: array_with(g.occupancy_bitboards, p.occ, 3),
        white_to_move: p.white_to_move,
        can_white_castle_long: p.can_white_castle_long,
        can_white_castle_short: p.can_white_castle_short,
        can_black_castle_long: p.can_black_castle_long,
        can_black_castle_short: p.can_black_castle_short,
        en_passant_target: p.en_passant_target,
        zobrist_hash: p.zobrist_hash,
        ..g
    };
    assert(w.position() == p);
}

/// No entry of the table is stored under hash `h`.
pub open spec fn no_entry_for(tt: Map<u64, TranspositionTableEntry>, h: u64) -> bool {
    forall|k: u64| #[trigger] tt.contains_key(k) ==> tt[k].zobrist_hash != h
}

/// The hashes of the positions one and two moves ahead of `g` do not
/// collide: the positions after two different legal moves have different
/// hashes, and none of them has the hash of a position two moves ahead.
pub open spec fn hashes_apart(g: ChessGame) -> bool {
    let moves = g.legal_moves_spec();
    &&& forall|i: int, j: int|
        0 <= i < moves.len() && 0 <= j < moves.len() && i != j ==> #[trigger] child_game(g, moves[i]).zobrist_hash
            != #[trigger] child_game(g, moves[j]).zobrist_hash
    &&& forall|i: int, j: int, k: int|
        0 <= i < moves.len() && 0 <= j < moves.len() && 0 <= k < child_game(g, moves[j]).legal_moves_spec().len()
            ==> #[trigger] child_game(g, moves[i]).zobrist_hash != #[trigger] child_game(
            child_game(g, moves[j]),
            child_game(g, moves[j]).legal_moves_spec()[k],
        ).zobrist_hash
}

/// With no entry under its hash, a position searched at depth 0 gets its
/// minimax value and leaves the table as it was.
proof fn lemma_leaf(gc: ChessGame, tt: Map<u64, TranspositionTableEntry>, a: i64, b: i64)
    requires
        no_entry_for(tt, gc.zobrist_hash),
    ensures
        search(gc, tt, 0, a, b) == (minimax_value(gc, 0), None::<Move>, tt),
{
    let slot = gc.zobrist_hash % crate::search::TRANSPOSITION_TABLE_SLOTS;
    if tt.contains_key(slot) {
        assert(tt[slot].zobrist_hash != gc.zobrist_hash);
    }
    assert(cached(gc, tt, 0, a, b) is None);
}

/// The loop over the moves of a position searched at depth 1, when no
/// table entry is under the hash of a position after one of them: the best
/// exact value so far, unless it falls outside the window, in which case
/// the value returned falls outside too.
proof fn lemma_node_fold(
    c: ChessGame,
    moves: Seq<Move>,
    j: int,
    a: i64,
    b: i64,
    best: i64,
    bm: Option<Move>,
    tt: Map<u64, TranspositionTableEntry>,
)
    requires
        0 <= j <= moves.len(),
        forall|k: int| 0 <= k < moves.len() ==> no_entry_for(tt, #[trigger] child_game(c, moves[k]).zobrist_hash),
        !c.white_to_move ==> best >= a,
        c.white_to_move ==> best <= b,
    ensures
        ({
            let r = search_moves(c, moves, j, 1, a, b, best, bm, tt);
            let bv = best_value(c, moves, 1, j);
            &&& r.4 == tt
            &&& !c.white_to_move ==> ({
                let w = if best <= bv { best } else { bv };
                (w >= a ==> r.0 == w) && (w < a ==> r.0 < a)
            })
            &&& c.white_to_move ==> ({
                let w = if best >= bv { best } else { bv };
                (w <= b ==> r.0 == w) && (w > b ==> r.0 > b)
            })
        }),
    decreases moves.len() - j,
{
    if j < moves.len() {
        let m = moves[j];
        let gc = child_game(c, m);
        assert(no_entry_for(tt, child_game(c, moves[j]).zobrist_hash));
        lemma_leaf(gc, tt, a, b);
        let v = minimax_value(gc, 0);
        if c.white_to_move {
            let best1 = if v > best { v } else { best };
            let bm1 = if v > best { Some(m) } else { bm };
            if best1 <= b {
                lemma_node_fold(c, moves, j + 1, if a >= best1 { a } else { best1 }, b, best1, bm1, tt);
            }
        } else {
            let best1 = if v < best { v } else { best };
            let bm1 = if v < best { Some(m) } else { bm };
            if best1 >= a {
                lemma_node_fold(c, moves, j + 1, a, if b <= best1 { b } else { best1 }, best1, bm1, tt);
            }
        }
    }
}

/// A position searched at depth 1 with the window open on the side its
/// opponent cares about, and no table entry under its hash or that of a
/// position after one of its moves: its minimax value when that is inside
/// the window, else a value outside it too. The table gains at most an
/// entry under its own hash.
proof fn lemma_node(c: ChessGame, tt: Map<u64, TranspositionTableEntry>, a: i64, b: i64)
    requires
        no_entry_for(tt, c.zobrist_hash),
        forall|k: int|
            0 <= k < c.legal_moves_spec().len() ==> no_entry_for(
                tt,
                #[trigger] child_game(c, c.legal_moves_spec()[k]).zobrist_hash,
            ),
        !c.white_to_move ==> b == i64::MAX,
        c.white_to_move ==> a == i64::MIN,
    ensures
        ({
            let r = search(c, tt, 1, a, b);
            let v = minimax_value(c, 1);
            &&& !c.white_to_move ==> (v >= a ==> r.0 == v) && (v < a ==> r.0 < a)
            &&& c.white_to_move ==> (v <= b ==> r.0 == v) && (v > b ==> r.0 > b)
            &&& forall|k: u64|
                #[trigger] r.2.contains_key(k) ==> (tt.contains_key(k) && r.2[k] == tt[k]) || r.2[k].zobrist_hash
                    == c.zobrist_hash
        }),
{
    let slot = c.zobrist_hash % crate::search::TRANSPOSITION_TABLE_SLOTS;
    if tt.contains_key(slot) {
        assert(tt[slot].zobrist_hash != c.zobrist_hash);
    }
    assert(cached(c, tt, 1, a, b) is None);
    let moves = c.legal_moves_spec();
    if moves.len() > 0 {
        let start = if c.white_to_move { i64::MIN } else { i64::MAX };
        lemma_node_fold(c, moves, 0, a, b, start, Some(moves[0]), tt);
    }
}

/// The loop over the legal moves of `g` searched at depth 2, from an empty
/// table, keeps the best minimax value of the positions searched.
proof fn lemma_root_fold(
    g: ChessGame,
    moves: Seq<Move>,
    i: int,
    alpha: i64,
    beta: i64,
    best: i64,
    bm: Option<Move>,
    tt: Map<u64, TranspositionTableEntry>,
)
    requires
        moves == g.legal_moves_spec(),
        hashes_apart(g),
        0 <= i <= moves.len(),
        forall|k: u64|
            #[trigger] tt.contains_key(k) ==> exists|j: int|
                0 <= j < i && tt[k].zobrist_hash == #[trigger] child_game(g, moves[j]).zobrist_hash,
        g.white_to_move ==> alpha == best && beta == i64::MAX,
        !g.white_to_move ==> beta == best && alpha == i64::MIN,
    ensures
        ({
            let r = search_moves(g, moves, i, 2, alpha, beta, best, bm, tt);
            let bv = best_value(g, moves, 2, i);
            &&& g.white_to_move ==> r.0 == (if best >= bv { best } else { bv })
            &&& !g.white_to_move ==> r.0 == (if best <= bv { best } else { bv })
        }),
    decreases moves.len() - i,
{
    if i < moves.len() {
        let m = moves[i];
        let c = child_game(g, m);
        lemma_game_with(g, g.after(m));
        assert(c.white_to_move == !g.white_to_move);
        assert forall|k: u64| #[trigger] tt.contains_key(k) implies tt[k].zobrist_hash != c.zobrist_hash by {
            let j = choose|j: int| 0 <= j < i && tt[k].zobrist_hash == #[trigger] child_game(g, moves[j]).zobrist_hash;
            assert(child_game(g, moves[j]).zobrist_hash != child_game(g, moves[i]).zobrist_hash);
        }
        assert forall|kk: int| 0 <= kk < c.legal_moves_spec().len() implies no_entry_for(
            tt,
            #[trigger] child_game(c, c.legal_moves_spec()[kk]).zobrist_hash,
        ) by {
            assert forall|k: u64| #[trigger] tt.contains_key(k) implies tt[k].zobrist_hash != child_game(
                c,
                c.legal_moves_spec()[kk],
            ).zobrist_hash by {
                let j = choose|j: int| 0 <= j < i && tt[k].zobrist_hash == #[trigger] child_game(g, moves[j]).zobrist_hash;
                assert(child_game(g, moves[j]).zobrist_hash != child_game(
                    child_game(g, moves[i]),
                    child_game(g, moves[i]).legal_moves_spec()[kk],
                ).zobrist_hash);
            }
        }
        lemma_node(c, tt, alpha, beta);
        let r = search(c, tt, 1, alpha, beta);
        let v = r.0;
        let tt1 = r.2;
        assert forall|k: u64| #[trigger] tt1.contains_key(k) implies exists|j: int|
            0 <= j < i + 1 && tt1[k].zobrist_hash == #[trigger] child_game(g, moves[j]).zobrist_hash by {
            if tt.contains_key(k) && tt1[k] == tt[k] {
                let j = choose|j: int| 0 <= j < i && tt[k].zobrist_hash == #[trigger] child_game(g, moves[j]).zobrist_hash;
                assert(0 <= j < i + 1);
            } else {
                assert(tt1[k].zobrist_hash == child_game(g, moves[i]).zobrist_hash);
            }
        }
        if g.white_to_move {
            let best1 = if v > best { v } else { best };
            let bm1 = if v > best { Some(m) } else { bm };
            lemma_root_fold(g, moves, i + 1, best1, beta, best1, bm1, tt1);
        } else {
            let best1 = if v < best { v } else { best };
            let bm1 = if v < best { Some(m) } else { bm };
            lemma_root_fold(g, moves, i + 1, alpha, best1, best1, bm1, tt1);
        }
    }
}

/// Alpha-beta search with an empty transposition table and the full window
/// returns the minimax value at depth 2 too, provided the hashes of the
/// positions one and two moves ahead do not collide (with colliding hashes
/// the search may reuse a stored result of another position).
pub proof fn lemma_search_is_minimax_depth2(g: ChessGame)
    requires
        hashes_apart(g),
    ensures
        search(g, Map::empty(), 2, i64::MIN, i64::MAX).0 == minimax_value(g, 2),
{
    assert(cached(g, Map::empty(), 2, i64::MIN, i64::MAX) is None);
    let moves = g.legal_moves_spec();
    if moves.len() > 0 {
        let start = if g.white_to_move { i64::MIN } else { i64::MAX };
        lemma_root_fold(g, moves, 0, i64::MIN, i64::MAX, start, Some(moves[0]), Map::empty());
    }
}

/// For a game with an empty transposition table, what `minimax(depth,
/// i64::MIN, i64::MAX)` returns (the search it is specified by) is the
/// minimax value at depth 0 and 1, and at depth 2 when the hashes of the
/// positions one and two moves ahead do not collide.
pub proof fn lemma_minimax_on_empty_table(g: ChessGame, d: nat)
    requires
        g.transposition_table@ == Map::<u64, TranspositionTableEntry>::empty(),
        d <= 1 || (d == 2 && hashes_apart(g)),
    ensures
        search(g, g.tt_view(), d as u32, i64::MIN, i64::MAX).0 == minimax_value(g, d),
{
    assert(g.tt_view() =~= Map::<u64, TranspositionTableEntry>::empty());
    if d <= 1 {
        lemma_search_is_minimax(g, d);
    } else {
        lemma_search_is_minimax_depth2(g);
    }
}

} // verus!
