//! Rules of chess and of the bot that the engine's results keep, stated
//! over all positions and inputs: how a position without moves is scored,
//! what long castling needs, which moves forfeit castling rights, which
//! legal move a move in coordinate notation names, and which move of a
//! game's move list the bot makes.
use vstd::prelude::*;
use crate::bot::{BotSession, GameEvent, next_step};
use crate::castle_sides::CastleSides;
use crate::chess_game::ChessGame;
use crate::chess_move::{Move, parse_move, same_move};
use crate::fen::find_space;
use crate::helpers::has_bit;
use crate::legal_moves::{first_same, in_check, lemma_legal_move_facts};
use crate::lichess_structs::space_pieces;
use crate::piece_type::PieceType;
use crate::search::{search, cached, terminal_value};
use crate::transposition_table_entry::TranspositionTableEntry;
use vstd::std_specs::cmp::PartialEqSpec;

verus! {

/// A position without legal moves is a draw, worth 0, unless the side to
/// move is in check: then it is lost, the lowest value when white is mated
/// and the highest when black is.
pub proof fn lemma_terminal_value(g: ChessGame)
    ensures
        !in_check(g.position(), g.us()) ==> terminal_value(g) == 0,
        in_check(g.position(), g.us()) && g.white_to_move ==> terminal_value(g) == i64::MIN,
        in_check(g.position(), g.us()) && !g.white_to_move ==> terminal_value(g) == i64::MAX,
{
}

/// The search of a position without legal moves (and no stored result to
/// reuse) names no move and scores it 0 in stalemate, whoever is to move,
/// and as lost for the side to move in checkmate.
pub proof fn lemma_search_without_moves(
    g: ChessGame,
    tt: Map<u64, TranspositionTableEntry>,
    depth: u32,
    alpha: i64,
    beta: i64,
)
    requires
        g.legal_moves_spec().len() == 0,
        cached(g, tt, depth, alpha, beta) is None,
    ensures
        search(g, tt, depth, alpha, beta).1 is None,
        !in_check(g.position(), g.us()) ==> search(g, tt, depth, alpha, beta).0 == 0,
        in_check(g.position(), g.us()) && g.white_to_move ==> search(g, tt, depth, alpha, beta).0 == i64::MIN,
        in_check(g.position(), g.us()) && !g.white_to_move ==> search(g, tt, depth, alpha, beta).0 == i64::MAX,
{
}

/// A legal castling move crosses only empty squares: the two between king
/// and rook on the short side, the three between them on the long side.
pub proof fn lemma_castling_path_empty(g: &ChessGame, m: Move)
    requires
        g.playable(),
        g.legal_moves_spec().contains(m),
    ensures
        m.castle_side == Some(CastleSides::Long) ==> !has_bit(g.occ(2), m.from_square - 1) && !has_bit(
            g.occ(2),
            m.from_square - 2,
        ) && !has_bit(g.occ(2), m.from_square - 3),
        m.castle_side == Some(CastleSides::Short) ==> !has_bit(g.occ(2), m.from_square + 1) && !has_bit(
            g.occ(2),
            m.from_square + 2,
        ),
        m.castle_side is Some ==> m.from_piece_type == Some(PieceType::King),
{
    lemma_legal_move_facts(g, m);
}

/// A legal move never gives a castling right back, and takes one away only
/// when it moves that side's king, moves a piece off that right's rook
/// corner, or captures on that corner. Rights of the side to move are lost
/// only by its own king or rook move; those of the other side only by a
/// capture on their corner.
pub proof fn lemma_castling_rights_forfeit(g: &ChessGame, m: Move)
    requires
        g.playable(),
        g.legal_moves_spec().contains(m),
    ensures
        ({
            let q = g.after(m);
            let w = g.white_to_move;
            let king = m.from_piece_type == Some(PieceType::King);
            &&& q.can_white_castle_short ==> g.can_white_castle_short
            &&& q.can_white_castle_long ==> g.can_white_castle_long
            &&& q.can_black_castle_short ==> g.can_black_castle_short
            &&& q.can_black_castle_long ==> g.can_black_castle_long
            &&& g.can_white_castle_short && !q.can_white_castle_short ==> (w && (king || m.from_square == 63))
                || (!w && m.to_square == 63)
            &&& g.can_white_castle_long && !q.can_white_castle_long ==> (w && (king || m.from_square == 56)) || (
            !w && m.to_square == 56)
            &&& g.can_black_castle_short && !q.can_black_castle_short ==> (!w && (king || m.from_square == 7))
                || (w && m.to_square == 7)
            &&& g.can_black_castle_long && !q.can_black_castle_long ==> (!w && (king || m.from_square == 0)) || (w
                && m.to_square == 0)
        }),
{
    lemma_legal_move_facts(g, m);
    let pm = choose|pm: Move| #[trigger] g.pseudo_moves().contains(pm) && m == (Move {
        is_check: m.is_check,
        ..g.annotate(pm)
    });
    assert(m.from_piece_type == pm.from_piece_type && m.from_square == pm.from_square && m.to_square
        == pm.to_square);
}

/// Two moves are the same move exactly when they join the same squares
/// with the same promotion; `==` on moves means that.
pub proof fn lemma_same_move(a: Move, b: Move)
    ensures
        same_move(a, b) == (a.from_square == b.from_square && a.to_square == b.to_square
            && a.pawn_promoting_to == b.pawn_promoting_to),
        a.eq_spec(&b) == (a.from_square == b.from_square && a.to_square == b.to_square
            && a.pawn_promoting_to == b.pawn_promoting_to),
{
}

/// The legal move chosen for a requested move (the first of `ms` that is
/// the same move) is one of `ms` with the requested source, destination and
/// promotion, and no earlier move of `ms` has them; when none is chosen, no
/// move of `ms` has them.
pub proof fn lemma_first_same(ms: Seq<Move>, x: Move)
    ensures
        first_same(ms, x) matches Some(m) ==> exists|i: int|
            0 <= i < ms.len() && ms[i] == m && m.from_square == x.from_square && m.to_square == x.to_square
                && m.pawn_promoting_to == x.pawn_promoting_to && forall|j: int|
                0 <= j < i ==> !(ms[j].from_square == x.from_square && ms[j].to_square == x.to_square
                    && #[trigger] ms[j].pawn_promoting_to == x.pawn_promoting_to),
        first_same(ms, x) is None ==> forall|j: int|
            0 <= j < ms.len() ==> !(ms[j].from_square == x.from_square && ms[j].to_square == x.to_square
                && #[trigger] ms[j].pawn_promoting_to == x.pawn_promoting_to),
    decreases ms.len(),
{
    if ms.len() > 0 {
        let rest = ms.drop_first();
        lemma_first_same(rest, x);
        if !same_move(ms[0], x) {
            if first_same(ms, x) is Some {
                let m = first_same(ms, x)->0;
                let i = choose|i: int|
                    0 <= i < rest.len() && rest[i] == m && m.from_square == x.from_square && m.to_square
                        == x.to_square && m.pawn_promoting_to == x.pawn_promoting_to && forall|j: int|
                        0 <= j < i ==> !(rest[j].from_square == x.from_square && rest[j].to_square
                            == x.to_square && #[trigger] rest[j].pawn_promoting_to == x.pawn_promoting_to);
                assert(ms[i + 1] == m);
                assert forall|j: int| 0 <= j < i + 1 implies !(ms[j].from_square == x.from_square
                    && ms[j].to_square == x.to_square && #[trigger] ms[j].pawn_promoting_to
                    == x.pawn_promoting_to) by {
                    if j > 0 {
                        assert(ms[j] == rest[j - 1]);
                    }
                }
            } else {
                assert forall|j: int| 0 <= j < ms.len() implies !(ms[j].from_square == x.from_square
                    && ms[j].to_square == x.to_square && #[trigger] ms[j].pawn_promoting_to
                    == x.pawn_promoting_to) by {
                    if j > 0 {
                        assert(ms[j] == rest[j - 1]);
                    }
                }
            }
        } else {
            assert(ms[0] == first_same(ms, x)->0);
        }
    }
}

/// The first space of `t` at or after `i` is no later than a space at `j`.
proof fn lemma_find_space_before(t: Seq<char>, i: int, j: int)
    requires
        0 <= i <= j < t.len(),
        t[j] == ' ',
    ensures
        i <= find_space(t, i) <= j,
    decreases j - i,
{
    if t[i] != ' ' {
        lemma_find_space_before(t, i + 1, j);
    }
}

/// With no space from `i` on, the first space from `i` is the end.
proof fn lemma_find_space_none(t: Seq<char>, i: int)
    requires
        0 <= i <= t.len(),
        forall|k: int| i <= k < t.len() ==> t[k] != ' ',
    ensures
        find_space(t, i) == t.len(),
    decreases t.len() - i,
{
    if i < t.len() {
        lemma_find_space_none(t, i + 1);
    }
}

/// The last piece of a text split at its spaces is what follows its last
/// space.
pub proof fn lemma_space_pieces_last(s: Seq<char>, pre: Seq<char>, t: Seq<char>, start: int)
    requires
        s == pre + seq![' '] + t,
        forall|i: int| 0 <= i < t.len() ==> t[i] != ' ',
        0 <= start <= pre.len() + 1,
    ensures
        space_pieces(s, start).len() > 0,
        space_pieces(s, start).last() == t,
    decreases s.len() - start,
{
    let n = pre.len() as int;
    assert(s[n] == ' ');
    if start == n + 1 {
        assert forall|k: int| start <= k < s.len() implies s[k] != ' ' by {
            assert(s[k] == t[k - n - 1]);
        }
        lemma_find_space_none(s, start);
        assert(s.subrange(start, s.len() as int) =~= t);
    } else {
        lemma_find_space_before(s, start, n);
        let e = find_space(s, start);
        lemma_space_pieces_last(s, pre, t, e + 1);
        let rest = space_pieces(s, e + 1);
        assert(space_pieces(s, start) == seq![s.subrange(start, e)] + rest);
        assert((seq![s.subrange(start, e)] + rest).last() == rest.last());
    }
}

/// A text without spaces is a single piece.
pub proof fn lemma_space_pieces_single(t: Seq<char>)
    requires
        forall|i: int| 0 <= i < t.len() ==> t[i] != ' ',
    ensures
        space_pieces(t, 0).len() > 0,
        space_pieces(t, 0).last() == t,
{
    lemma_find_space_none(t, 0);
    assert(t.subrange(0, t.len() as int) =~= t);
}

/// On a state event, the bot makes the last move of the game's move list
/// (the text after its last space) when that is a legal move here, and
/// records the new status: the position afterwards is the position after
/// that move.
pub proof fn lemma_state_makes_last_move(
    g: ChessGame,
    s: BotSession,
    bot_name: Seq<char>,
    start_fen: Seq<char>,
    moves: String,
    status: String,
    pre: Seq<char>,
    last: Seq<char>,
)
    requires
        moves@ == pre + seq![' '] + last || moves@ == last,
        forall|i: int| 0 <= i < last.len() ==> last[i] != ' ',
        moves@.len() < usize::MAX,
        g.playable(),
        parse_move(last) is Some,
        first_same(g.legal_moves_spec(), parse_move(last)->0) is Some,
    ensures
        ({
            let m = first_same(g.legal_moves_spec(), parse_move(last)->0)->0;
            let r = next_step(g, s, bot_name, start_fen, GameEvent::State { moves, status });
            &&& r.2 == g.after(m)
            &&& r.1 == BotSession { status: status, ..s }
            &&& g.legal_moves_spec().contains(m)
        }),
{
    if moves@ == pre + seq![' '] + last {
        lemma_space_pieces_last(moves@, pre, last, 0);
    } else {
        lemma_space_pieces_single(last);
    }
    assert(last.len() > 0);
    crate::bot::lemma_first_same_member(g.legal_moves_spec(), parse_move(last)->0);
}

} // verus!
