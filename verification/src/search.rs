//! Alpha-beta search with a transposition table, and iterative deepening.
use vstd::prelude::*;
use crate::chess_game::ChessGame;
use crate::chess_move::Move;
use crate::evaluation::{side_value, square_value};
use crate::legal_moves::{in_check, same_board, lemma_same_board_same_moves};
use crate::transposition_table_entry::{TranspositionTableEntry, TranspositionTableNodeType};

verus! {

/// Number of slots of the transposition table: a position's slot is its
/// hash modulo this.
pub const TRANSPOSITION_TABLE_SLOTS: u64 = 10_000;

/// The call counter after one more call (it wraps around at the top).
pub open spec fn counted_call(n: u64) -> u64 {
    if n < u64::MAX {
        (n + 1) as u64
    } else {
        0
    }
}

/// A table entry with its time stamp left out, since the search never
/// reads it.
pub open spec fn entry_core(e: TranspositionTableEntry) -> TranspositionTableEntry {
    TranspositionTableEntry { age: 0, ..e }
}

/// A table with its time stamps left out.
pub open spec fn table_core(t: Map<u64, TranspositionTableEntry>) -> Map<u64, TranspositionTableEntry> {
    t.map_values(|e: TranspositionTableEntry| entry_core(e))
}

/// Every entry of the table names a best move.
pub open spec fn table_moves_named(t: Map<u64, TranspositionTableEntry>) -> bool {
    forall|k: u64| #[trigger] t.contains_key(k) ==> t[k].best_move is Some
}

/// A game with position `p` and tables `k`.
pub open spec fn game_with<'a>(p: crate::position::Position, k: &'a crate::runtime_calculated_constants::Constants) -> ChessGame<'a> {
    choose|c: ChessGame<'a>| c.position() == p && c.bitboard_constants == k
}

/// A game with the board, side to move, rights, en-passant target and
/// hash of the position after `m`.
pub open spec fn child_game<'a>(g: ChessGame<'a>, m: Move) -> ChessGame<'a> {
    game_with(g.after(m), g.bitboard_constants)
}

/// The stored result the search may reuse for `g`: an entry for the same
/// hash searched at least as deep that is exact, or a lower bound above
/// `alpha`, or an upper bound below `beta`.
pub open spec fn cached(
    g: ChessGame,
    tt: Map<u64, TranspositionTableEntry>,
    depth: u32,
    alpha: i64,
    beta: i64,
) -> Option<(i64, Option<Move>)> {
    let slot = g.zobrist_hash % TRANSPOSITION_TABLE_SLOTS;
    if tt.contains_key(slot) && tt[slot].depth >= depth && g.zobrist_hash == tt[slot].zobrist_hash {
        let e = tt[slot];
        match e.node_type {
            TranspositionTableNodeType::Exact => Some((e.evaluation, e.best_move)),
            TranspositionTableNodeType::LowerBound => if e.evaluation > alpha {
                Some((e.evaluation, e.best_move))
            } else {
                None
            },
            TranspositionTableNodeType::UpperBound => if e.evaluation < beta {
                Some((e.evaluation, e.best_move))
            } else {
                None
            },
        }
    } else {
        None
    }
}

/// The value of a position without legal moves: lost for the side in
/// check (the lowest value when white is mated, the highest when black is),
/// drawn otherwise.
pub open spec fn terminal_value(g: ChessGame) -> i64 {
    if in_check(g.position(), g.us()) {
        if g.white_to_move {
            i64::MIN
        } else {
            i64::MAX
        }
    } else {
        0
    }
}

/// The result of the alpha-beta search of `g` to `depth` within the window
/// (`alpha`, `beta`), with the table it reads and leaves: a reusable
/// table entry, the terminal value without moves, the evaluation at depth
/// 0, else the best of the moves searched one level deeper (white
/// maximising, black minimising), recorded in the table with the kind of
/// bound it is.
pub open spec fn search(
    g: ChessGame,
    tt: Map<u64, TranspositionTableEntry>,
    depth: u32,
    alpha: i64,
    beta: i64,
) -> (i64, Option<Move>, Map<u64, TranspositionTableEntry>)
    decreases depth, 1int, 0int,
{
    match cached(g, tt, depth, alpha, beta) {
        Some((v, bm)) => (v, bm, tt),
        None => {
            let moves = g.legal_moves_spec();
            if moves.len() == 0 {
                (terminal_value(g), None, tt)
            } else if depth == 0 {
                (g.evaluation() as i64, None, tt)
            } else {
                let start = if g.white_to_move {
                    i64::MIN
                } else {
                    i64::MAX
                };
                let (best, bm, a, b, tt2) = search_moves(
                    g,
                    moves,
                    0,
                    depth,
                    alpha,
                    beta,
                    start,
                    Some(moves[0]),
                    tt,
                );
                let node = if best <= a {
                    TranspositionTableNodeType::UpperBound
                } else if best >= b {
                    TranspositionTableNodeType::LowerBound
                } else {
                    TranspositionTableNodeType::Exact
                };
                (
                    best,
                    bm,
                    tt2.insert(
                        g.zobrist_hash % TRANSPOSITION_TABLE_SLOTS,
                        TranspositionTableEntry {
                            zobrist_hash: g.zobrist_hash,
                            best_move: bm,
                            depth: depth,
                            evaluation: best,
                            node_type: node,
                            age: 0,
                        },
                    ),
                )
            }
        },
    }
}

/// Searches `moves[i..]` of `g` one level deeper, keeping the best value
/// and move so far and the window, stopping once the best value leaves it.
pub open spec fn search_moves(
    g: ChessGame,
    moves: Seq<Move>,
    i: int,
    depth: u32,
    alpha: i64,
    beta: i64,
    best: i64,
    bm: Option<Move>,
    tt: Map<u64, TranspositionTableEntry>,
) -> (i64, Option<Move>, i64, i64, Map<u64, TranspositionTableEntry>)
    decreases depth, 0int, moves.len() - i,
{
    if i >= moves.len() || i < 0 || depth == 0 {
        (best, bm, alpha, beta, tt)
    } else {
        let m = moves[i];
        let (v, _, tt1) = search(child_game(g, m), tt, (depth - 1) as u32, alpha, beta);
        if g.white_to_move {
            let (best1, bm1) = if v > best {
                (v, Some(m))
            } else {
                (best, bm)
            };
            if best1 > beta {
                (best1, bm1, alpha, beta, tt1)
            } else {
                let alpha1 = if alpha >= best1 {
                    alpha
                } else {
                    best1
                };
                search_moves(g, moves, i + 1, depth, alpha1, beta, best1, bm1, tt1)
            }
        } else {
            let (best1, bm1) = if v < best {
                (v, Some(m))
            } else {
                (best, bm)
            };
            if best1 < alpha {
                (best1, bm1, alpha, beta, tt1)
            } else {
                let beta1 = if beta <= best1 {
                    beta
                } else {
                    best1
                };
                search_moves(g, moves, i + 1, depth, alpha, beta1, best1, bm1, tt1)
            }
        }
    }
}

/// Games with the same board have the same evaluation.
pub proof fn lemma_same_board_evaluation(g1: &ChessGame, g2: &ChessGame)
    requires
        same_board(g1, g2),
    ensures
        g1.evaluation() == g2.evaluation(),
{
    assert(g1.piece_bitboards =~= g2.piece_bitboards);
    assert(g1.occupancy_bitboards =~= g2.occupancy_bitboards);
    lemma_same_board_side_value(g1, g2, g1.occ(0), true);
    lemma_same_board_side_value(g1, g2, g1.occ(1), false);
}

proof fn lemma_same_board_side_value(g1: &ChessGame, g2: &ChessGame, bb: u64, white: bool)
    requires
        same_board(g1, g2),
    ensures
        side_value(g1, bb, white) == side_value(g2, bb, white),
    decreases bb,
{
    assert(g1.pb() == g2.pb());
    if bb != 0 {
        crate::helpers::lemma_clear_lsb_lt(bb);
        lemma_same_board_side_value(g1, g2, crate::helpers::clear_lsb(bb), white);
        assert(square_value(g1, crate::helpers::lsb(bb) as int, white) == square_value(g2, crate::helpers::lsb(bb) as int, white));
    }
}

/// The search of games with the same board gives the same result.
pub proof fn lemma_same_board_search(
    g1: ChessGame,
    g2: ChessGame,
    tt: Map<u64, TranspositionTableEntry>,
    depth: u32,
    alpha: i64,
    beta: i64,
)
    requires
        same_board(&g1, &g2),
    ensures
        search(g1, tt, depth, alpha, beta) == search(g2, tt, depth, alpha, beta),
    decreases depth, 1int, 0int,
{
    lemma_same_board_same_moves(&g1, &g2);
    lemma_same_board_evaluation(&g1, &g2);
    let moves = g1.legal_moves_spec();
    if cached(g1, tt, depth, alpha, beta) is None && moves.len() > 0 && depth > 0 {
        let start = if g1.white_to_move { i64::MIN } else { i64::MAX };
        lemma_same_board_search_moves(g1, g2, moves, 0, depth, alpha, beta, start, Some(moves[0]), tt);
    }
}

proof fn lemma_same_board_search_moves(
    g1: ChessGame,
    g2: ChessGame,
    moves: Seq<Move>,
    i: int,
    depth: u32,
    alpha: i64,
    beta: i64,
    best: i64,
    bm: Option<Move>,
    tt: Map<u64, TranspositionTableEntry>,
)
    requires
        same_board(&g1, &g2),
    ensures
        search_moves(g1, moves, i, depth, alpha, beta, best, bm, tt) == search_moves(
            g2,
            moves,
            i,
            depth,
            alpha,
            beta,
            best,
            bm,
            tt,
        ),
    decreases depth, 0int, moves.len() - i,
{
    if !(i >= moves.len() || i < 0 || depth == 0) {
        let m = moves[i];
        assert(g1.after(m) == g2.after(m));
        assert(child_game(g1, m) == child_game(g2, m));
        let (v, _, tt1) = search(child_game(g1, m), tt, (depth - 1) as u32, alpha, beta);
        if g1.white_to_move {
            let (best1, bm1) = if v > best { (v, Some(m)) } else { (best, bm) };
            let alpha1 = if alpha >= best1 { alpha } else { best1 };
            lemma_same_board_search_moves(g1, g2, moves, i + 1, depth, alpha1, beta, best1, bm1, tt1);
        } else {
            let (best1, bm1) = if v < best { (v, Some(m)) } else { (best, bm) };
            let beta1 = if beta <= best1 { beta } else { best1 };
            lemma_same_board_search_moves(g1, g2, moves, i + 1, depth, alpha, beta1, best1, bm1, tt1);
        }
    }
}

/// `n` advanced by `k` calls, wrapping around as a `u64` counter does.
pub open spec fn add_calls(n: u64, k: nat) -> u64 {
    ((n + k) % 0x1_0000_0000_0000_0000) as u64
}

/// Counting `a` calls, then `b`, is counting `a + b`; counting none leaves
/// the counter, and one call is `counted_call`.
pub proof fn lemma_add_calls(n: u64, a: nat, b: nat)
    ensures
        add_calls(add_calls(n, a), b) == add_calls(n, a + b),
        add_calls(n, 0) == n,
        add_calls(n, 1) == counted_call(n),
{
    let m: int = 0x1_0000_0000_0000_0000;
    vstd::arithmetic::div_mod::lemma_add_mod_noop(n + a, b as int, m);
    vstd::arithmetic::div_mod::lemma_add_mod_noop_right((n + a) % m, b as int, m);
    vstd::arithmetic::div_mod::lemma_mod_bound(n + a, m);
    vstd::arithmetic::div_mod::lemma_small_mod(n as nat, 0x1_0000_0000_0000_0000);
    if n < u64::MAX {
        vstd::arithmetic::div_mod::lemma_small_mod((n + 1) as nat, 0x1_0000_0000_0000_0000);
    }
}

/// How many calls the search of `g` makes (itself and every position it
/// searches below), as `search` describes the search.
pub open spec fn search_calls(
    g: ChessGame,
    tt: Map<u64, TranspositionTableEntry>,
    depth: u32,
    alpha: i64,
    beta: i64,
) -> nat
    decreases depth, 1int, 0int,
{
    match cached(g, tt, depth, alpha, beta) {
        Some(_) => 1,
        None => {
            let moves = g.legal_moves_spec();
            if moves.len() == 0 || depth == 0 {
                1
            } else {
                let start = if g.white_to_move { i64::MIN } else { i64::MAX };
                1 + search_moves_calls(g, moves, 0, depth, alpha, beta, start, Some(moves[0]), tt)
            }
        },
    }
}

/// How many calls searching `moves[i..]` of `g` makes, as `search_moves`
/// describes it (stopping where it stops).
pub open spec fn search_moves_calls(
    g: ChessGame,
    moves: Seq<Move>,
    i: int,
    depth: u32,
    alpha: i64,
    beta: i64,
    best: i64,
    bm: Option<Move>,
    tt: Map<u64, TranspositionTableEntry>,
) -> nat
    decreases depth, 0int, moves.len() - i,
{
    if i >= moves.len() || i < 0 || depth == 0 {
        0
    } else {
        let m = moves[i];
        let (v, _, tt1) = search(child_game(g, m), tt, (depth - 1) as u32, alpha, beta);
        let c = search_calls(child_game(g, m), tt, (depth - 1) as u32, alpha, beta);
        if g.white_to_move {
            let (best1, bm1) = if v > best { (v, Some(m)) } else { (best, bm) };
            if best1 > beta {
                c
            } else {
                let alpha1 = if alpha >= best1 { alpha } else { best1 };
                c + search_moves_calls(g, moves, i + 1, depth, alpha1, beta, best1, bm1, tt1)
            }
        } else {
            let (best1, bm1) = if v < best { (v, Some(m)) } else { (best, bm) };
            if best1 < alpha {
                c
            } else {
                let beta1 = if beta <= best1 { beta } else { best1 };
                c + search_moves_calls(g, moves, i + 1, depth, alpha, beta1, best1, bm1, tt1)
            }
        }
    }
}

/// The number of calls depends only on the board.
pub proof fn lemma_same_board_calls(
    g1: ChessGame,
    g2: ChessGame,
    tt: Map<u64, TranspositionTableEntry>,
    depth: u32,
    alpha: i64,
    beta: i64,
)
    requires
        same_board(&g1, &g2),
    ensures
        search_calls(g1, tt, depth, alpha, beta) == search_calls(g2, tt, depth, alpha, beta),
    decreases depth, 1int, 0int,
{
    lemma_same_board_same_moves(&g1, &g2);
    let moves = g1.legal_moves_spec();
    if cached(g1, tt, depth, alpha, beta) is None && moves.len() > 0 && depth > 0 {
        let start = if g1.white_to_move { i64::MIN } else { i64::MAX };
        lemma_same_board_moves_calls(g1, g2, moves, 0, depth, alpha, beta, start, Some(moves[0]), tt);
    }
}

proof fn lemma_same_board_moves_calls(
    g1: ChessGame,
    g2: ChessGame,
    moves: Seq<Move>,
    i: int,
    depth: u32,
    alpha: i64,
    beta: i64,
    best: i64,
    bm: Option<Move>,
    tt: Map<u64, TranspositionTableEntry>,
)
    requires
        same_board(&g1, &g2),
    ensures
        search_moves_calls(g1, moves, i, depth, alpha, beta, best, bm, tt) == search_moves_calls(
            g2,
            moves,
            i,
            depth,
            alpha,
            beta,
            best,
            bm,
            tt,
        ),
    decreases depth, 0int, moves.len() - i,
{
    if !(i >= moves.len() || i < 0 || depth == 0) {
        let m = moves[i];
        assert(g1.after(m) == g2.after(m));
        assert(child_game(g1, m) == child_game(g2, m));
        let (v, _, tt1) = search(child_game(g1, m), tt, (depth - 1) as u32, alpha, beta);
        if g1.white_to_move {
            let (best1, bm1) = if v > best { (v, Some(m)) } else { (best, bm) };
            let alpha1 = if alpha >= best1 { alpha } else { best1 };
            lemma_same_board_moves_calls(g1, g2, moves, i + 1, depth, alpha1, beta, best1, bm1, tt1);
        } else {
            let (best1, bm1) = if v < best { (v, Some(m)) } else { (best, bm) };
            let beta1 = if beta <= best1 { beta } else { best1 };
            lemma_same_board_moves_calls(g1, g2, moves, i + 1, depth, alpha, beta1, best1, bm1, tt1);
        }
    }
}

/// One step of `search_moves`: the result after searching `moves[i]`.
pub proof fn lemma_search_moves_step(
    g: ChessGame,
    moves: Seq<Move>,
    i: int,
    depth: u32,
    alpha: i64,
    beta: i64,
    best: i64,
    bm: Option<Move>,
    tt: Map<u64, TranspositionTableEntry>,
)
    requires
        0 <= i < moves.len(),
        depth > 0,
    ensures
        ({
            let m = moves[i];
            let s = search(child_game(g, m), tt, (depth - 1) as u32, alpha, beta);
            let v = s.0;
            let tt1 = s.2;
            search_moves(g, moves, i, depth, alpha, beta, best, bm, tt) == if g.white_to_move {
                let best1 = if v > best { v } else { best };
                let bm1 = if v > best { Some(m) } else { bm };
                if best1 > beta {
                    (best1, bm1, alpha, beta, tt1)
                } else {
                    search_moves(g, moves, i + 1, depth, if alpha >= best1 { alpha } else { best1 }, beta, best1, bm1, tt1)
                }
            } else {
                let best1 = if v < best { v } else { best };
                let bm1 = if v < best { Some(m) } else { bm };
                if best1 < alpha {
                    (best1, bm1, alpha, beta, tt1)
                } else {
                    search_moves(g, moves, i + 1, depth, alpha, if beta <= best1 { beta } else { best1 }, best1, bm1, tt1)
                }
            }
        }),
{
}

/// `search_moves` past the last move gives what it was handed.
pub proof fn lemma_search_moves_end(
    g: ChessGame,
    moves: Seq<Move>,
    depth: u32,
    alpha: i64,
    beta: i64,
    best: i64,
    bm: Option<Move>,
    tt: Map<u64, TranspositionTableEntry>,
)
    ensures
        search_moves(g, moves, moves.len() as int, depth, alpha, beta, best, bm, tt) == (best, bm, alpha, beta, tt),
{
}

/// The value, best move and final window of searching all `moves` of `g`.
pub open spec fn children_result(g: ChessGame, moves: Seq<Move>, depth: u32, alpha: i64, beta: i64, bm: Option<Move>) -> (i64, Option<Move>, i64, i64) {
    let s = search_moves(g, moves, 0, depth, alpha, beta, if g.white_to_move { i64::MIN } else { i64::MAX }, bm, g.tt_view());
    (s.0, s.1, s.2, s.3)
}

/// The table left by searching all `moves` of `g`.
pub open spec fn children_table(g: ChessGame, moves: Seq<Move>, depth: u32, alpha: i64, beta: i64, bm: Option<Move>) -> Map<u64, TranspositionTableEntry> {
    search_moves(g, moves, 0, depth, alpha, beta, if g.white_to_move { i64::MIN } else { i64::MAX }, bm, g.tt_view()).4
}

impl<'a> ChessGame<'a> {
    /// The transposition table with time stamps left out.
    pub open spec fn tt_view(&self) -> Map<u64, TranspositionTableEntry> {
        table_core(self.transposition_table@)
    }

    /// Alpha-beta search of the position to `depth` within the window
    /// (`alpha`, `beta`): the value of the position for white and the best
    /// move found, as `search` describes them. The board and the stored
    /// legal moves are left as they were; the table keeps what the search
    /// recorded.
    #[verifier::rlimit(100)]
    pub fn minimax(&mut self, depth: u32, alpha: i64, beta: i64) -> (r: (i64, Option<Move>))
        requires
            old(self).playable(),
            old(self).legal_moves@ == old(self).legal_moves_spec(),
        ensures
            ({
                let s = search(*old(self), old(self).tt_view(), depth, alpha, beta);
                r.0 == s.0 && r.1 == s.1 && final(self).tt_view() == s.2
            }),
            same_board(final(self), old(self)),
            final(self).legal_moves@ == old(self).legal_moves@,
            final(self).debug_mimimax_moves_made@ == old(self).debug_mimimax_moves_made@,
            final(self).debug_minimax_calls == add_calls(
                old(self).debug_minimax_calls,
                search_calls(*old(self), old(self).tt_view(), depth, alpha, beta),
            ),
        decreases depth, 2int,
    {
        broadcast use vstd::std_specs::hash::group_hash_axioms;
        self.debug_minimax_calls = self.debug_minimax_calls.wrapping_add(1);
        let ghost g0 = *self;
        proof {
            crate::legality::lemma_playable_parts(old(self));
            lemma_same_board_search(*old(self), g0, old(self).tt_view(), depth, alpha, beta);
            lemma_same_board_calls(*old(self), g0, old(self).tt_view(), depth, alpha, beta);
            lemma_same_board_same_moves(old(self), &g0);
            lemma_add_calls(old(self).debug_minimax_calls, 1, 0);
        }
        let slot = self.zobrist_hash % TRANSPOSITION_TABLE_SLOTS;
        if self.transposition_table.contains_key(&slot) {
            let entry = *self.transposition_table.get(&slot).unwrap();
            proof {
                assert(g0.tt_view()[slot] == entry_core(entry));
            }
            if entry.depth >= depth && self.zobrist_hash == entry.zobrist_hash {
                match entry.node_type {
                    TranspositionTableNodeType::Exact => {
                        return (entry.evaluation, entry.best_move);
                    },
                    TranspositionTableNodeType::LowerBound => {
                        if entry.evaluation > alpha {
                            return (entry.evaluation, entry.best_move);
                        }
                    },
                    TranspositionTableNodeType::UpperBound => {
                        if entry.evaluation < beta {
                            return (entry.evaluation, entry.best_move);
                        }
                    },
                }
            }
        }
        if self.legal_moves.len() == 0 {
            proof {
                crate::legal_moves::lemma_attacked_in_position(self);
            }
            if self.white_to_move {
                if self.is_king_attacked(&crate::color::Color::White) {
                    return (i64::MIN, None);
                } else {
                    return (0, None);
                }
            } else {
                if self.is_king_attacked(&crate::color::Color::Black) {
                    return (i64::MAX, None);
                } else {
                    return (0, None);
                }
            }
        }
        if depth == 0 {
            return (self.evaluate_board(), None);
        }
        let temp_legal_move_clone = self.legal_moves.clone();
        proof {
            assert(temp_legal_move_clone@ =~= g0.legal_moves@);
        }
        let (best_evaluation, best_move, alpha_end, beta_end) = self.search_children(
            &temp_legal_move_clone,
            depth,
            alpha,
            beta,
            Some(temp_legal_move_clone[0]),
            false,
        );
        let ghost searched = *self;
        proof {
            let start = if g0.white_to_move { i64::MIN } else { i64::MAX };
            lemma_add_calls(
                old(self).debug_minimax_calls,
                1,
                search_moves_calls(g0, g0.legal_moves@, 0, depth, alpha, beta, start, Some(g0.legal_moves@[0]), g0.tt_view()),
            );
        }
        self.set_legal_moves(Some(temp_legal_move_clone));
        let node: TranspositionTableNodeType = if best_evaluation <= alpha_end {
            TranspositionTableNodeType::UpperBound
        } else if best_evaluation >= beta_end {
            TranspositionTableNodeType::LowerBound
        } else {
            TranspositionTableNodeType::Exact
        };
        let time = crate::clock::system_now();
        let age = crate::clock::millis_since_epoch(&time);
        let entry = TranspositionTableEntry {
            zobrist_hash: self.zobrist_hash,
            best_move: best_move,
            depth: depth,
            node_type: node,
            evaluation: best_evaluation,
            age: age,
        };
        let ghost before = self.transposition_table@;
        self.transposition_table.insert(slot, entry);
        proof {
            assert(table_core(before.insert(slot, entry)) =~= table_core(before).insert(slot, entry_core(entry)));
        }
        (best_evaluation, best_move)
    }

    /// Makes the legal move `m` of `g0` (whose board this game has),
    /// searches the position one level shallower, and takes the move back.
    #[verifier::rlimit(100)]
    fn search_child(&mut self, Ghost(g0): Ghost<ChessGame<'a>>, m: Move, depth: u32, alpha: i64, beta: i64) -> (r: i64)
        requires
            g0.playable(),
            g0.legal_moves_spec().contains(m),
            same_board(old(self), &g0),
            depth > 0,
        ensures
            ({
                let s = search(child_game(g0, m), old(self).tt_view(), (depth - 1) as u32, alpha, beta);
                r == s.0 && final(self).tt_view() == s.2
            }),
            same_board(final(self), &g0),
            final(self).debug_mimimax_moves_made@ == old(self).debug_mimimax_moves_made@,
            final(self).debug_minimax_calls == add_calls(
                old(self).debug_minimax_calls,
                search_calls(child_game(g0, m), old(self).tt_view(), (depth - 1) as u32, alpha, beta),
            ),
        decreases depth, 0int,
    {
        proof {
            crate::legal_moves::lemma_legal_move_facts(&g0, m);
            lemma_same_board_same_moves(self, &g0);
            crate::legality::lemma_playable_parts(&g0);
        }
        self.make_move(&m, true);
        let ghost made = *self;
        let (temp_evaluation, _) = self.minimax(depth - 1, alpha, beta);
        proof {
            assert(made.position() == g0.after(m));
            lemma_same_board_search(made, child_game(g0, m), made.tt_view(), (depth - 1) as u32, alpha, beta);
            lemma_same_board_calls(made, child_game(g0, m), made.tt_view(), (depth - 1) as u32, alpha, beta);
        }
        self.unmake_move(&m);
        proof {
            crate::position::lemma_unmake_undoes_make(g0.position(), m, g0.bitboard_constants);
        }
        temp_evaluation
    }

    /// Searches each of `moves`, the legal moves of the position, one level
    /// deeper, as `search_moves` describes.
    #[verifier::rlimit(100)]
    fn search_children(&mut self, moves: &Vec<Move>, depth: u32, alpha: i64, beta: i64, first_best: Option<Move>, record: bool) -> (r: (
        i64,
        Option<Move>,
        i64,
        i64,
    ))
        requires
            old(self).playable(),
            moves@ == old(self).legal_moves_spec(),
            moves@.len() > 0,
            depth > 0,
        ensures
            r == children_result(*old(self), moves@, depth, alpha, beta, first_best),
            final(self).tt_view() == children_table(*old(self), moves@, depth, alpha, beta, first_best),
            same_board(final(self), old(self)),
            final(self).debug_mimimax_moves_made@ == old(self).debug_mimimax_moves_made@,
            final(self).debug_minimax_calls == add_calls(
                old(self).debug_minimax_calls,
                search_moves_calls(*old(self), moves@, 0, depth, alpha, beta, if old(self).white_to_move { i64::MIN } else { i64::MAX }, first_best, old(self).tt_view()),
            ),
        decreases depth, 1int,
    {
        let ghost g0 = *self;
        let ghost alpha0 = alpha;
        let ghost beta0 = beta;
        let white = self.white_to_move;
        let mut best_evaluation: i64 = if white { i64::MIN } else { i64::MAX };
        let mut best_move: Option<Move> = first_best;
        let mut a = alpha;
        let mut b = beta;
        let n = moves.len();
        let ghost total = search_moves(g0, moves@, 0, depth, a, b, best_evaluation, best_move, g0.tt_view());
        let ghost total_calls = search_moves_calls(g0, moves@, 0, depth, a, b, best_evaluation, best_move, g0.tt_view());
        proof {
            lemma_add_calls(self.debug_minimax_calls, 0, 0);
        }
        let mut i: usize = 0;
        while i < n
            invariant
                0 <= i <= n,
                n == moves@.len(),
                g0 == *old(self),
                alpha0 == alpha,
                beta0 == beta,
                total == search_moves(*old(self), moves@, 0, depth, alpha0, beta0, if old(self).white_to_move { i64::MIN } else { i64::MAX }, first_best, old(self).tt_view()),
                g0.playable(),
                moves@ == g0.legal_moves_spec(),
                depth > 0,
                white == g0.white_to_move,
                same_board(self, &g0),
                self.debug_mimimax_moves_made@ == g0.debug_mimimax_moves_made@,
                search_moves(g0, moves@, i as int, depth, a, b, best_evaluation, best_move, self.tt_view()) == total,
                total_calls == search_moves_calls(*old(self), moves@, 0, depth, alpha0, beta0, if old(self).white_to_move { i64::MIN } else { i64::MAX }, first_best, old(self).tt_view()),
                add_calls(
                    self.debug_minimax_calls,
                    search_moves_calls(g0, moves@, i as int, depth, a, b, best_evaluation, best_move, self.tt_view()),
                ) == add_calls(g0.debug_minimax_calls, total_calls),
            decreases n - i,
        {
            let legal_move = moves[i];
            proof {
                assert(moves@.contains(legal_move));
            }
            let ghost tt_before = self.tt_view();
            let ghost calls_before = self.debug_minimax_calls;
            let ghost rest_before = search_moves_calls(g0, moves@, i as int, depth, a, b, best_evaluation, best_move, tt_before);
            let ghost child_calls = search_calls(child_game(g0, legal_move), tt_before, (depth - 1) as u32, a, b);
            let ghost stack = self.debug_mimimax_moves_made@;
            if record {
                self.debug_mimimax_moves_made.push(legal_move);
            }
            let temp_evaluation = self.search_child(Ghost(g0), legal_move, depth, a, b);
            if record {
                self.debug_mimimax_moves_made.pop();
            }
            proof {
                assert(self.debug_mimimax_moves_made@ =~= stack);
                lemma_search_moves_step(g0, moves@, i as int, depth, a, b, best_evaluation, best_move, tt_before);
                lemma_add_calls(calls_before, child_calls, (rest_before - child_calls) as nat);
            }
            if white {
                if temp_evaluation > best_evaluation {
                    best_evaluation = temp_evaluation;
                    best_move = Some(legal_move);
                }
                if best_evaluation > b {
                    return (best_evaluation, best_move, a, b);
                }
                a = if a >= best_evaluation { a } else { best_evaluation };
            } else {
                if temp_evaluation < best_evaluation {
                    best_evaluation = temp_evaluation;
                    best_move = Some(legal_move);
                }
                if best_evaluation < a {
                    return (best_evaluation, best_move, a, b);
                }
                b = if b <= best_evaluation { b } else { best_evaluation };
            }
            i += 1;
        }
        proof {
            lemma_search_moves_end(g0, moves@, depth, a, b, best_evaluation, best_move, self.tt_view());
            lemma_add_calls(self.debug_minimax_calls, 0, 0);
        }
        (best_evaluation, best_move, a, b)
    }
}

/// Searching each depth from 1 to `d` in turn, each search reading the
/// table the previous one left: the last result and the final table.
pub open spec fn deepen(g: ChessGame, tt: Map<u64, TranspositionTableEntry>, d: nat) -> (i64, Option<Move>, Map<u64, TranspositionTableEntry>)
    decreases d,
{
    if d <= 1 {
        search(g, tt, 1, i64::MIN, i64::MAX)
    } else {
        search(g, deepen(g, tt, (d - 1) as nat).2, d as u32, i64::MIN, i64::MAX)
    }
}

/// The search keeps every table entry naming a move, and names a best move
/// itself whenever it searches at least one level and there are legal moves.
pub proof fn lemma_search_names_move(
    g: ChessGame,
    tt: Map<u64, TranspositionTableEntry>,
    depth: u32,
    alpha: i64,
    beta: i64,
)
    requires
        table_moves_named(tt),
    ensures
        table_moves_named(search(g, tt, depth, alpha, beta).2),
        depth > 0 && g.legal_moves_spec().len() > 0 ==> search(g, tt, depth, alpha, beta).1 is Some,
    decreases depth, 1int, 0int,
{
    let moves = g.legal_moves_spec();
    if cached(g, tt, depth, alpha, beta) is None && moves.len() > 0 && depth > 0 {
        let start = if g.white_to_move { i64::MIN } else { i64::MAX };
        lemma_search_moves_names_move(g, moves, 0, depth, alpha, beta, start, Some(moves[0]), tt);
    }
}

proof fn lemma_search_moves_names_move(
    g: ChessGame,
    moves: Seq<Move>,
    i: int,
    depth: u32,
    alpha: i64,
    beta: i64,
    best: i64,
    bm: Option<Move>,
    tt: Map<u64, TranspositionTableEntry>,
)
    requires
        table_moves_named(tt),
        bm is Some,
    ensures
        table_moves_named(search_moves(g, moves, i, depth, alpha, beta, best, bm, tt).4),
        search_moves(g, moves, i, depth, alpha, beta, best, bm, tt).1 is Some,
    decreases depth, 0int, moves.len() - i,
{
    if !(i >= moves.len() || i < 0 || depth == 0) {
        let m = moves[i];
        lemma_search_names_move(child_game(g, m), tt, (depth - 1) as u32, alpha, beta);
        let (v, _, tt1) = search(child_game(g, m), tt, (depth - 1) as u32, alpha, beta);
        if g.white_to_move {
            let (best1, bm1) = if v > best { (v, Some(m)) } else { (best, bm) };
            let alpha1 = if alpha >= best1 { alpha } else { best1 };
            lemma_search_moves_names_move(g, moves, i + 1, depth, alpha1, beta, best1, bm1, tt1);
        } else {
            let (best1, bm1) = if v < best { (v, Some(m)) } else { (best, bm) };
            let beta1 = if beta <= best1 { beta } else { best1 };
            lemma_search_moves_names_move(g, moves, i + 1, depth, alpha, beta1, best1, bm1, tt1);
        }
    }
}

/// Deepening keeps every table entry naming a move and names a best move
/// when there are legal moves.
pub proof fn lemma_deepen_names_move(g: ChessGame, tt: Map<u64, TranspositionTableEntry>, d: nat)
    requires
        table_moves_named(tt),
        d <= u32::MAX,
    ensures
        table_moves_named(deepen(g, tt, d).2),
        g.legal_moves_spec().len() > 0 ==> deepen(g, tt, d).1 is Some,
    decreases d,
{
    if d <= 1 {
        lemma_search_names_move(g, tt, 1, i64::MIN, i64::MAX);
    } else {
        lemma_deepen_names_move(g, tt, (d - 1) as nat);
        lemma_search_names_move(g, deepen(g, tt, (d - 1) as nat).2, d as u32, i64::MIN, i64::MAX);
    }
}

/// Iterative deepening depends only on the board of the game.
pub proof fn lemma_same_board_deepen(g1: ChessGame, g2: ChessGame, tt: Map<u64, TranspositionTableEntry>, d: nat)
    requires
        same_board(&g1, &g2),
    ensures
        deepen(g1, tt, d) == deepen(g2, tt, d),
    decreases d,
{
    if d <= 1 {
        lemma_same_board_search(g1, g2, tt, 1, i64::MIN, i64::MAX);
    } else {
        lemma_same_board_deepen(g1, g2, tt, (d - 1) as nat);
        lemma_same_board_search(g1, g2, deepen(g1, tt, (d - 1) as nat).2, d as u32, i64::MIN, i64::MAX);
    }
}

/// How long iterative deepening keeps going deeper, in milliseconds.
pub const SEARCH_TIME_LIMIT_MS: u128 = 5_000;

/// Whether iterative deepening searches one level deeper, `elapsed_ms`
/// milliseconds after it began, having searched to `depth`: while the time
/// limit is not reached and a deeper level exists.
pub open spec fn keep_deepening_spec(elapsed_ms: u128, depth: u32) -> bool {
    elapsed_ms < SEARCH_TIME_LIMIT_MS && depth < u32::MAX
}

/// The decision of iterative deepening (see `keep_deepening_spec`).
pub fn keep_deepening(elapsed_ms: u128, depth: u32) -> (r: bool)
    ensures
        r == keep_deepening_spec(elapsed_ms, depth),
{
    elapsed_ms < SEARCH_TIME_LIMIT_MS && depth < u32::MAX
}

/// `readings` are the clock readings of iterative deepening, one after each
/// depth searched: every reading but the last let it go deeper, and the last
/// stopped it. The depth reached is the number of readings.
pub open spec fn deepening_stops(readings: Seq<u128>) -> bool {
    &&& readings.len() >= 1
    &&& forall|k: int| 0 <= k < readings.len() - 1 ==> keep_deepening_spec(#[trigger] readings[k], (k + 1) as u32)
    &&& !keep_deepening_spec(readings.last(), readings.len() as u32)
    &&& readings.len() <= u32::MAX
}

impl<'a> ChessGame<'a> {
    /// Searches depth 1, 2, 3, ... in turn until one search ends after the
    /// time limit: the result of the last search. Which depth that is
    /// depends on the clock.
    pub fn iterative_deepening_minimax(&mut self) -> (r: (i64, Option<Move>))
        requires
            old(self).playable(),
            old(self).legal_moves@ == old(self).legal_moves_spec(),
        ensures
            exists|readings: Seq<u128>|
                #[trigger] deepening_stops(readings) && r.0 == deepen(*old(self), old(self).tt_view(), readings.len()).0
                    && r.1 == deepen(*old(self), old(self).tt_view(), readings.len()).1 && final(self).tt_view()
                    == deepen(*old(self), old(self).tt_view(), readings.len()).2,
            old(self).legal_moves@.len() > 0 && table_moves_named(old(self).tt_view()) ==> r.1 is Some,
            table_moves_named(old(self).tt_view()) ==> table_moves_named(final(self).tt_view()),
            same_board(final(self), old(self)),
            final(self).legal_moves@ == old(self).legal_moves@,
    {
        let ghost g0 = *self;
        let start_time = crate::clock::system_now();
        let mut search_depth: u32 = 1;
        let ghost mut readings: Seq<u128> = Seq::empty();
        let (mut best_evaluation, mut best_move) = self.minimax(search_depth, i64::MIN, i64::MAX);
        proof {
            lemma_same_board_search(*self, g0, g0.tt_view(), 1, i64::MIN, i64::MAX);
        }
        loop
            invariant_except_break
                readings.len() == search_depth - 1,
                forall|k: int| 0 <= k < readings.len() ==> keep_deepening_spec(#[trigger] readings[k], (k + 1) as u32),
            invariant
                g0 == *old(self),
                1 <= search_depth,
                same_board(self, &g0),
                self.legal_moves@ == g0.legal_moves@,
                g0.playable(),
                g0.legal_moves@ == g0.legal_moves_spec(),
                best_evaluation == deepen(g0, g0.tt_view(), search_depth as nat).0,
                best_move == deepen(g0, g0.tt_view(), search_depth as nat).1,
                self.tt_view() == deepen(g0, g0.tt_view(), search_depth as nat).2,
            ensures
                deepening_stops(readings),
                readings.len() == search_depth,
                best_evaluation == deepen(g0, g0.tt_view(), search_depth as nat).0,
                best_move == deepen(g0, g0.tt_view(), search_depth as nat).1,
                self.tt_view() == deepen(g0, g0.tt_view(), search_depth as nat).2,
                same_board(self, &g0),
                self.legal_moves@ == g0.legal_moves@,
            decreases u32::MAX - search_depth,
        {
            let now = crate::clock::system_now();
            let time_spent_ms = crate::clock::millis_between(&start_time, &now);
            let ghost prev = readings;
            proof {
                readings = readings.push(time_spent_ms);
                assert forall|k: int| 0 <= k < readings.len() - 1 implies keep_deepening_spec(
                    #[trigger] readings[k],
                    (k + 1) as u32,
                ) by {
                    assert(readings[k] == prev[k]);
                }
            }
            proof {
                assert(readings.last() == time_spent_ms);
                assert(readings.len() == search_depth);
            }
            if !keep_deepening(time_spent_ms, search_depth) {
                proof {
                    assert(deepening_stops(readings));
                }
                break;
            }
            search_depth += 1;
            proof {
                lemma_same_board_same_moves(self, &g0);
            }
            let ghost before = *self;
            let (e, m) = self.minimax(search_depth, i64::MIN, i64::MAX);
            proof {
                lemma_same_board_search(before, g0, before.tt_view(), search_depth, i64::MIN, i64::MAX);
            }
            best_evaluation = e;
            best_move = m;
        }
        proof {
            if table_moves_named(g0.tt_view()) {
                lemma_deepen_names_move(g0, g0.tt_view(), search_depth as nat);
            }
        }
        (best_evaluation, best_move)
    }

    /// The move the engine plays: the best move of iterative deepening.
    pub fn get_bot_move(&mut self) -> (r: Move)
        requires
            old(self).playable(),
            old(self).legal_moves@ == old(self).legal_moves_spec(),
            old(self).legal_moves@.len() > 0,
            table_moves_named(old(self).tt_view()),
        ensures
            exists|readings: Seq<u128>|
                #[trigger] deepening_stops(readings) && Some(r) == deepen(*old(self), old(self).tt_view(), readings.len()).1
                    && final(self).tt_view() == deepen(*old(self), old(self).tt_view(), readings.len()).2,
            table_moves_named(final(self).tt_view()),
            same_board(final(self), old(self)),
            final(self).legal_moves@ == old(self).legal_moves@,
    {
        let ghost g0 = *self;
        let (_evaluation, best_move) = self.iterative_deepening_minimax();
        proof {
            let readings = choose|readings: Seq<u128>|
                #[trigger] deepening_stops(readings) && best_move == deepen(g0, g0.tt_view(), readings.len()).1
                    && self.tt_view() == deepen(g0, g0.tt_view(), readings.len()).2;
            lemma_deepen_names_move(g0, g0.tt_view(), readings.len());
        }
        best_move.unwrap()
    }
}

impl<'a> ChessGame<'a> {
    /// The alpha-beta search of `minimax` at the top level, without reading
    /// or writing the table there, recording each move being searched on the
    /// debug move stack while it is searched. Unlike `minimax` it names no
    /// best move until one improves on the starting value, and it does not
    /// restore the stored legal moves afterwards.
    #[verifier::rlimit(100)]
    pub fn minimax_debug(&mut self, depth: u32, alpha: i64, beta: i64) -> (r: (i64, Option<Move>))
        requires
            old(self).playable(),
            old(self).legal_moves@ == old(self).legal_moves_spec(),
        ensures
            old(self).legal_moves@.len() == 0 ==> r == (terminal_value(*old(self)), None::<Move>),
            old(self).legal_moves@.len() > 0 && depth == 0 ==> r == (old(self).evaluation() as i64, None::<Move>),
            old(self).legal_moves@.len() > 0 && depth > 0 ==> ({
                let c = children_result(*old(self), old(self).legal_moves@, depth, alpha, beta, None);
                r.0 == c.0 && r.1 == c.1
                    && final(self).tt_view() == children_table(*old(self), old(self).legal_moves@, depth, alpha, beta, None)
            }),
            same_board(final(self), old(self)),
            final(self).debug_mimimax_moves_made@ == old(self).debug_mimimax_moves_made@,
            final(self).debug_minimax_calls == add_calls(
                old(self).debug_minimax_calls,
                if old(self).legal_moves@.len() == 0 || depth == 0 {
                    1
                } else {
                    1 + search_moves_calls(
                        *old(self),
                        old(self).legal_moves@,
                        0,
                        depth,
                        alpha,
                        beta,
                        if old(self).white_to_move { i64::MIN } else { i64::MAX },
                        None,
                        old(self).tt_view(),
                    )
                },
            ),
    {
        self.debug_minimax_calls = self.debug_minimax_calls.wrapping_add(1);
        let ghost g0 = *self;
        proof {
            lemma_add_calls(old(self).debug_minimax_calls, 1, 0);
            crate::legality::lemma_playable_parts(old(self));
            lemma_same_board_same_moves(old(self), &g0);
            lemma_same_board_evaluation(old(self), &g0);
            crate::legal_moves::lemma_attacked_in_position(self);
        }
        if self.legal_moves.len() == 0 {
            if self.white_to_move {
                if self.is_king_attacked(&crate::color::Color::White) {
                    return (i64::MIN, None);
                } else {
                    return (0, None);
                }
            } else {
                if self.is_king_attacked(&crate::color::Color::Black) {
                    return (i64::MAX, None);
                } else {
                    return (0, None);
                }
            }
        }
        if depth == 0 {
            return (self.evaluate_board(), None);
        }
        let moves = self.legal_moves.clone();
        proof {
            assert(moves@ =~= g0.legal_moves@);
            let start = if g0.white_to_move { i64::MIN } else { i64::MAX };
            lemma_same_board_search_moves(*old(self), g0, moves@, 0, depth, alpha, beta, start, None, g0.tt_view());
            lemma_same_board_moves_calls(*old(self), g0, moves@, 0, depth, alpha, beta, start, None, g0.tt_view());
            lemma_add_calls(
                old(self).debug_minimax_calls,
                1,
                search_moves_calls(g0, moves@, 0, depth, alpha, beta, start, None, g0.tt_view()),
            );
        }
        let (best_evaluation, best_move, _a, _b) = self.search_children(&moves, depth, alpha, beta, None, true);
        (best_evaluation, best_move)
    }
}

} // verus!
