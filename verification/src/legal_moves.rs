//! Legal moves: the generated moves that do not leave the mover's king
//! attacked, with check and castling-right bookkeeping, ordered for search.
use vstd::prelude::*;
use crate::chess_game::{ChessGame, kind_attacks};
use crate::chess_move::{Move, same_move};
use crate::color::Color;
use crate::helpers::{has_bit, lsb, clear_lsb, get_lsb_index, lemma_lsb};
use crate::legality::{single_square, lemma_pseudo_moves_fit, lemma_annotate_fits, lemma_game_consistent};
use crate::piece_type::PieceType;
use crate::position::{
    Position, make_position, unmake_position, move_in_range, move_fits, made_pb, made_pb_mover,
    made_pb_capture, made_pb_castle, mover_board, dest_board, captured_board, side_off, setb, clrb,
    lemma_unmake_undoes_make, is_ep_capture, lemma_setb_clrb, lemma_square_consistent,
};

verus! {

/// Some piece of colour `c` attacks `t` in position `q`.
pub open spec fn pos_attacked(q: Position, t: int, c: Color) -> bool {
    exists|k: int| 0 <= k < 6 && #[trigger] kind_attacks(q.pb, q.occ[2], k, c, t)
}

/// The king of `side` is attacked in position `q`.
pub open spec fn in_check(q: Position, side: Color) -> bool {
    pos_attacked(q, lsb(q.pb[side.spec_offset() + 5]) as int, side.opponent())
}

/// The only square of a one-square board is its lowest.
pub proof fn lemma_single_square(b: u64, t: int)
    requires
        single_square(b),
        has_bit(b, t),
    ensures
        t == lsb(b),
{
    lemma_lsb(b);
    if t != lsb(b) {
        crate::bitlemmas::lemma_has_bit_and(b, !(1u64 << (lsb(b) as u64)), t);
        crate::bitlemmas::lemma_has_bit_not(1u64 << (lsb(b) as u64), t);
        crate::bitlemmas::lemma_has_bit_single(lsb(b) as u64, t);
        crate::bitlemmas::lemma_has_bit_zero(t);
    }
}

/// What a game's attack test says is what its position says.
pub proof fn lemma_attacked_in_position(g: &ChessGame)
    ensures
        forall|t: int, c: Color| #[trigger] g.attacked_by(t, c) == pos_attacked(g.position(), t, c),
{
    assert forall|t: int, c: Color| #[trigger] g.attacked_by(t, c) == pos_attacked(g.position(), t, c) by {
        assert(g.position().pb == g.pb());
        assert(g.position().occ[2] == g.occ(2));
    }
}

impl<'a> ChessGame<'a> {
    /// Whether the king of `side_attacked` is attacked.
    pub fn is_king_attacked(&self, side_attacked: &Color) -> (r: bool)
        requires
            self.bitboard_constants.tables_correct(),
            self.pb()[side_attacked.spec_offset() + 5] != 0,
        ensures
            r == in_check(self.position(), *side_attacked),
    {
        let king_bitboard_index = 5 + side_attacked.piece_bitboard_offset();
        proof {
            lemma_lsb(self.pb()[king_bitboard_index as int]);
        }
        let king_square = get_lsb_index(self.piece_bitboards[king_bitboard_index]).unwrap();
        proof {
            lemma_attacked_in_position(self);
        }
        match side_attacked {
            Color::White => self.is_square_attacked(king_square, &Color::Black),
            Color::Black => self.is_square_attacked(king_square, &Color::White),
        }
    }
}

/// The moves of `ms` whose key is `k`, in their order.
pub open spec fn with_key(ms: Seq<Move>, key: spec_fn(Move) -> int, k: int) -> Seq<Move>
    decreases ms.len(),
{
    if ms.len() == 0 {
        seq![]
    } else {
        let rest = with_key(ms.drop_last(), key, k);
        if key(ms.last()) == k {
            rest.push(ms.last())
        } else {
            rest
        }
    }
}

/// The moves of `ms` with keys from `lo` to `hi`, by increasing key and, for
/// equal keys, in their order.
pub open spec fn ordered_by_key(ms: Seq<Move>, key: spec_fn(Move) -> int, lo: int, hi: int) -> Seq<Move>
    decreases hi - lo + 1,
{
    if hi < lo {
        seq![]
    } else {
        ordered_by_key(ms, key, lo, hi - 1) + with_key(ms, key, hi)
    }
}

/// Smallest and largest ordering key of a move.
pub const SORT_KEY_MIN: i64 = -19;
pub const SORT_KEY_MAX: i64 = 2;

impl<'a> ChessGame<'a> {
    /// How promising a move looks to the search (smaller first): giving
    /// check, capturing, landing on a square we defend, and leaving a square
    /// they attack count for it; landing on a square they attack against it.
    pub open spec fn sort_key(&self, m: Move) -> int {
        (if m.is_check == Some(true) { -10int } else { 0int })
            + (if m.to_piece_type is Some { -5int } else { 0int })
            + (if self.attacked_by(m.to_square as int, self.us()) { -2int } else { 0int })
            + (if self.attacked_by(m.to_square as int, self.them()) { 2int } else { 0int })
            + (if self.attacked_by(m.from_square as int, self.them()) { -2int } else { 0int })
    }

    /// The ordering key of `m`.
    fn move_sort_key(&self, m: &Move) -> (r: i64)
        requires
            self.bitboard_constants.tables_correct(),
            m.from_square < 64,
            m.to_square < 64,
        ensures
            r == self.sort_key(*m),
            SORT_KEY_MIN <= r <= SORT_KEY_MAX,
    {
        let our_color = if self.white_to_move { Color::White } else { Color::Black };
        let their_color = if self.white_to_move { Color::Black } else { Color::White };
        let mut move_evaluation: i64 = 0;
        if m.is_check == Some(true) {
            move_evaluation -= 10;
        }
        if m.to_piece_type.is_some() {
            move_evaluation -= 5;
        }
        if self.is_square_attacked(m.to_square, &our_color) {
            move_evaluation -= 2;
        }
        if self.is_square_attacked(m.to_square, &their_color) {
            move_evaluation += 2;
        }
        if self.is_square_attacked(m.from_square, &their_color) {
            move_evaluation -= 2;
        }
        move_evaluation
    }

    /// Orders `moves` by increasing key, keeping the order of moves with
    /// equal keys.
    pub fn sort_moves(&self, moves: &mut Vec<Move>)
        requires
            self.bitboard_constants.tables_correct(),
            forall|i: int|
                0 <= i < old(moves)@.len() ==> (#[trigger] old(moves)@[i]).from_square < 64
                    && old(moves)@[i].to_square < 64,
        ensures
            final(moves)@ == ordered_by_key(
                old(moves)@,
                |m: Move| self.sort_key(m),
                SORT_KEY_MIN as int,
                SORT_KEY_MAX as int,
            ),
    {
        let ghost ms = moves@;
        let ghost key = |m: Move| self.sort_key(m);
        let n = moves.len();
        let mut keys: Vec<i64> = Vec::new();
        for i in 0..n
            invariant
                n == moves@.len(),
                moves@ == ms,
                self.bitboard_constants.tables_correct(),
                forall|j: int| 0 <= j < ms.len() ==> (#[trigger] ms[j]).from_square < 64 && ms[j].to_square < 64,
                keys@.len() == i,
                forall|j: int| 0 <= j < i ==> keys@[j] == self.sort_key(#[trigger] ms[j]),
        {
            let k = self.move_sort_key(&moves[i]);
            keys.push(k);
        }
        let mut sorted: Vec<Move> = Vec::new();
        let mut k: i64 = SORT_KEY_MIN;
        while k <= SORT_KEY_MAX
            invariant
                n == ms.len(),
                moves@ == ms,
                keys@.len() == n,
                forall|j: int| 0 <= j < n ==> keys@[j] == key(#[trigger] ms[j]),
                SORT_KEY_MIN <= k <= SORT_KEY_MAX + 1,
                sorted@ == ordered_by_key(ms, key, SORT_KEY_MIN as int, k - 1),
            decreases SORT_KEY_MAX + 1 - k,
        {
            let ghost done = sorted@;
            for i in 0..n
                invariant
                    n == ms.len(),
                    moves@ == ms,
                    keys@.len() == n,
                    forall|j: int| 0 <= j < n ==> keys@[j] == key(#[trigger] ms[j]),
                    sorted@ == done + with_key(ms.take(i as int), key, k as int),
            {
                proof {
                    assert(ms.take(i + 1).drop_last() =~= ms.take(i as int));
                    assert(ms.take(i + 1).last() == ms[i as int]);
                }
                if keys[i] == k {
                    sorted.push(moves[i]);
                }
            }
            proof {
                assert(ms.take(n as int) =~= ms);
            }
            k += 1;
        }
        *moves = sorted;
    }
}

/// After a fitting move that does not capture a king, both sides still have
/// a king.
pub proof fn lemma_kings_survive(g: &ChessGame, m: Move)
    requires
        g.playable(),
        move_in_range(m, g.white_to_move),
        move_fits(g.position(), m),
        m.to_piece_type == Some(PieceType::King) ==> g.attacked_by(m.to_square as int, g.us()),
    ensures
        made_pb(g.position(), m)[g.us().spec_offset() + 5] != 0,
        made_pb(g.position(), m)[g.them().spec_offset() + 5] != 0,
{
    reveal(ChessGame::playable);
    let p = g.position();
    let w = g.white_to_move;
    let ok = g.us().spec_offset() + 5;
    let tk = g.them().spec_offset() + 5;
    lemma_setb_clrb();
    let pm = mover_board(m, w);
    let d = dest_board(m, w);
    let q1 = made_pb_mover(p.pb, m, w);
    let q2 = made_pb_capture(q1, m, w);
    let q3 = made_pb_castle(q2, m, w);
    assert(q3 == made_pb(p, m));
    // Our king: it either moves (and lands on the destination) or stays.
    if pm == ok {
        assert(d == ok);
        assert(has_bit(q1[ok], m.to_square as int));
        assert(q3[ok] == q1[ok]);
        crate::bitlemmas::lemma_has_bit_zero(m.to_square as int);
    } else {
        assert(d != ok);
        assert(q3[ok] == p.pb[ok]);
    }
    // Their king is never captured: a capture of it would mean it is attacked.
    if m.to_piece_type == Some(PieceType::King) {
        let c = captured_board(m, w);
        assert(c == tk);
        assert(has_bit(p.pb[tk], m.to_square as int));
        lemma_single_square(p.pb[tk], m.to_square as int);
        assert(g.their_offset() + 5 == tk);
        assert(false);
    }
    assert(q3[tk] == p.pb[tk]);
}

impl<'a> ChessGame<'a> {
    /// The position after making `m`.
    pub open spec fn after(&self, m: Move) -> Position {
        make_position(self.position(), m, self.bitboard_constants)
    }

    /// The moves of `ms` that do not leave the mover's king attacked, in
    /// order, each with its forfeited castling rights and whether it gives
    /// check recorded.
    pub open spec fn legal_from(&self, ms: Seq<Move>) -> Seq<Move>
        decreases ms.len(),
    {
        if ms.len() == 0 {
            seq![]
        } else {
            let prev = self.legal_from(ms.drop_last());
            let am = self.annotate(ms.last());
            if in_check(self.after(am), self.us()) {
                prev
            } else {
                prev.push(Move { is_check: Some(in_check(self.after(am), self.them())), ..am })
            }
        }
    }

    /// The legal moves of the side to move, ordered for the search.
    #[verifier::opaque]
    pub open spec fn legal_moves_spec(&self) -> Seq<Move> {
        ordered_by_key(
            self.legal_from(self.pseudo_moves()),
            |m: Move| self.sort_key(m),
            SORT_KEY_MIN as int,
            SORT_KEY_MAX as int,
        )
    }

    /// `m` with the castling rights it forfeits recorded.
    fn annotate_move(&self, m: &Move) -> (r: Move)
        ensures
            r == self.annotate(*m),
    {
        let mut this_move = *m;
        let white = self.white_to_move;
        let ws = if white {
            self.can_white_castle_short && (this_move.from_piece_type == Some(PieceType::King) || (
            this_move.from_piece_type == Some(PieceType::Rook) && this_move.from_square == 63))
        } else {
            this_move.to_piece_type == Some(PieceType::Rook) && self.can_white_castle_short
                && this_move.to_square == 63
        };
        let wl = if white {
            self.can_white_castle_long && (this_move.from_piece_type == Some(PieceType::King) || (
            this_move.from_piece_type == Some(PieceType::Rook) && this_move.from_square == 56))
        } else {
            this_move.to_piece_type == Some(PieceType::Rook) && !(self.can_white_castle_short
                && this_move.to_square == 63) && self.can_white_castle_long
                && this_move.to_square == 56
        };
        let bs = if white {
            this_move.to_piece_type == Some(PieceType::Rook) && self.can_black_castle_short
                && this_move.to_square == 7
        } else {
            self.can_black_castle_short && (this_move.from_piece_type == Some(PieceType::King) || (
            this_move.from_piece_type == Some(PieceType::Rook) && this_move.from_square == 7))
        };
        let bl = if white {
            this_move.to_piece_type == Some(PieceType::Rook) && !(self.can_black_castle_short
                && this_move.to_square == 7) && self.can_black_castle_long
                && this_move.to_square == 0
        } else {
            self.can_black_castle_long && (this_move.from_piece_type == Some(PieceType::King) || (
            this_move.from_piece_type == Some(PieceType::Rook) && this_move.from_square == 0))
        };
        this_move.removes_white_castling_rights_short = Some(ws);
        this_move.removes_white_castling_rights_long = Some(wl);
        this_move.removes_black_castling_rights_short = Some(bs);
        this_move.removes_black_castling_rights_long = Some(bl);
        this_move
    }

    /// Makes the annotated generated move `am`, keeps it (noting whether it
    /// gives check) when it leaves the mover's king unattacked, and takes it
    /// back.
    fn try_move(&mut self, am: Move) -> (r: Option<Move>)
        requires
            old(self).playable(),
            exists|pm: Move| old(self).pseudo_moves().contains(pm) && am == old(self).annotate(pm),
        ensures
            *final(self) == *old(self),
            r == (if in_check(old(self).after(am), old(self).us()) {
                None
            } else {
                Some(Move { is_check: Some(in_check(old(self).after(am), old(self).them())), ..am })
            }),
            r matches Some(m) ==> m.from_square < 64 && m.to_square < 64,
        decreases 1int,
    {
        proof {
            reveal(ChessGame::playable);
        }
        let ghost g0 = *self;
        let ghost pm = choose|pm: Move| g0.pseudo_moves().contains(pm) && am == g0.annotate(pm);
        proof {
            lemma_game_consistent(&g0);
            lemma_pseudo_moves_fit(&g0, pm);
            lemma_annotate_fits(&g0, pm);
            lemma_kings_survive(&g0, am);
        }
        let our_side = if self.white_to_move { Color::White } else { Color::Black };
        let their_side = if self.white_to_move { Color::Black } else { Color::White };
        let mut this_move = am;
        self.make_move(&this_move, false);
        let mut result: Option<Move> = None;
        if !self.is_king_attacked(&our_side) {
            this_move.is_check = Some(self.is_king_attacked(&their_side));
            result = Some(this_move);
        }
        self.unmake_move(&this_move);
        proof {
            lemma_unmake_undoes_make(g0.position(), am, g0.bitboard_constants);
            assert(self.piece_bitboards =~= g0.piece_bitboards);
            assert(self.occupancy_bitboards =~= g0.occupancy_bitboards);
        }
        result
    }

    /// The legal moves of the side to move: each generated move is made,
    /// kept when it leaves the mover's king unattacked (noting whether it
    /// gives check) and taken back; the kept moves are then ordered.
    pub fn get_legal_moves(&mut self) -> (r: Vec<Move>)
        requires
            old(self).playable(),
        ensures
            r@ == old(self).legal_moves_spec(),
            *final(self) == *old(self),
        decreases 2int,
    {
        proof {
            reveal(ChessGame::playable);
            reveal(ChessGame::legal_moves_spec);
        }
        let ghost g0 = *self;
        let mut moves: Vec<Move> = Vec::new();
        let possible_moves = self.get_psuedo_legal_moves();
        let white = self.white_to_move;
        let our_side = if white { Color::White } else { Color::Black };
        let their_side = if white { Color::Black } else { Color::White };
        let n = possible_moves.len();
        proof {
            lemma_game_consistent(&g0);
        }
        for i in 0..n
            invariant
                *self == g0,
                g0.playable(),
                possible_moves@ == g0.pseudo_moves(),
                n == possible_moves@.len(),
                white == g0.white_to_move,
                our_side == g0.us(),
                their_side == g0.them(),
                moves@ == g0.legal_from(g0.pseudo_moves().take(i as int)),
                forall|j: int|
                    0 <= j < moves@.len() ==> (#[trigger] moves@[j]).from_square < 64
                        && moves@[j].to_square < 64,
        {
            let ghost pm = possible_moves@[i as int];
            proof {
                assert(g0.pseudo_moves().contains(pm));
                assert(g0.pseudo_moves().take(i + 1).drop_last() =~= g0.pseudo_moves().take(i as int));
                assert(g0.pseudo_moves().take(i + 1).last() == pm);
            }
            let this_move = self.annotate_move(&possible_moves[i]);
            match self.try_move(this_move) {
                Some(m) => moves.push(m),
                None => {},
            }
        }
        proof {
            assert(g0.pseudo_moves().take(n as int) =~= g0.pseudo_moves());
        }
        self.sort_moves(&mut moves);
        moves
    }
}

/// A move taken by key comes from the list.
pub proof fn lemma_with_key_member(ms: Seq<Move>, key: spec_fn(Move) -> int, k: int, m: Move)
    requires
        with_key(ms, key, k).contains(m),
    ensures
        ms.contains(m),
    decreases ms.len(),
{
    if ms.len() > 0 {
        let rest = with_key(ms.drop_last(), key, k);
        if rest.contains(m) {
            lemma_with_key_member(ms.drop_last(), key, k, m);
            let i = choose|i: int| 0 <= i < ms.drop_last().len() && ms.drop_last()[i] == m;
            assert(ms[i] == m);
        } else {
            let i = choose|i: int| 0 <= i < with_key(ms, key, k).len() && with_key(ms, key, k)[i] == m;
            assert(key(ms.last()) == k && i == rest.len());
            assert(ms[ms.len() - 1] == m);
        }
    }
}

/// An ordered move comes from the list.
pub proof fn lemma_ordered_member(ms: Seq<Move>, key: spec_fn(Move) -> int, lo: int, hi: int, m: Move)
    requires
        ordered_by_key(ms, key, lo, hi).contains(m),
    ensures
        ms.contains(m),
    decreases hi - lo + 1,
{
    if hi >= lo {
        crate::legality::lemma_seq_add_member(ordered_by_key(ms, key, lo, hi - 1), with_key(ms, key, hi), m);
        if ordered_by_key(ms, key, lo, hi - 1).contains(m) {
            lemma_ordered_member(ms, key, lo, hi - 1, m);
        } else {
            lemma_with_key_member(ms, key, hi, m);
        }
    }
}

/// A kept move is a recorded generated move that leaves the mover's king
/// unattacked.
pub proof fn lemma_legal_from_member(g: &ChessGame, ms: Seq<Move>, m: Move)
    requires
        g.legal_from(ms).contains(m),
    ensures
        exists|pm: Move|
            #[trigger] ms.contains(pm) && !in_check(g.after(g.annotate(pm)), g.us()) && m == (Move {
                is_check: Some(in_check(g.after(g.annotate(pm)), g.them())),
                ..g.annotate(pm)
            }),
    decreases ms.len(),
{
    if ms.len() > 0 {
        let prev = g.legal_from(ms.drop_last());
        let pm = ms.last();
        if prev.contains(m) {
            lemma_legal_from_member(g, ms.drop_last(), m);
            let q = choose|q: Move|
                #[trigger] ms.drop_last().contains(q) && !in_check(g.after(g.annotate(q)), g.us()) && m == (Move {
                    is_check: Some(in_check(g.after(g.annotate(q)), g.them())),
                    ..g.annotate(q)
                });
            let i = choose|i: int| 0 <= i < ms.drop_last().len() && ms.drop_last()[i] == q;
            assert(ms[i] == q);
            assert(ms.contains(q));
        } else {
            assert(ms[ms.len() - 1] == pm);
            assert(ms.contains(pm));
        }
    }
}

/// A legal move of a playable game is a recorded generated move that fits
/// the position and leaves the mover's king unattacked.
pub proof fn lemma_legal_move_facts(g: &ChessGame, m: Move)
    requires
        g.playable(),
        g.legal_moves_spec().contains(m),
    ensures
        move_in_range(m, g.white_to_move),
        move_fits(g.position(), m),
        crate::legality::move_shape(g, m),
        !in_check(g.after(m), g.us()),
        exists|pm: Move| #[trigger] g.pseudo_moves().contains(pm) && m == (Move {
            is_check: m.is_check,
            ..g.annotate(pm)
        }),
{
    reveal(ChessGame::playable);
    reveal(ChessGame::legal_moves_spec);
    lemma_ordered_member(
        g.legal_from(g.pseudo_moves()),
        |m: Move| g.sort_key(m),
        SORT_KEY_MIN as int,
        SORT_KEY_MAX as int,
        m,
    );
    lemma_legal_from_member(g, g.pseudo_moves(), m);
    let pm = choose|pm: Move|
        #[trigger] g.pseudo_moves().contains(pm) && !in_check(g.after(g.annotate(pm)), g.us()) && m == (Move {
            is_check: Some(in_check(g.after(g.annotate(pm)), g.them())),
            ..g.annotate(pm)
        });
    lemma_pseudo_moves_fit(g, pm);
    lemma_annotate_fits(g, pm);
    let am = g.annotate(pm);
    assert(g.after(m) == g.after(am));
}

/// Which boards a fitting move of a playable game changes: the mover's
/// king board only when the king moves, the other king board never, a
/// rook board only at the mover's squares, a castling rook's squares or
/// the captured square.
pub proof fn lemma_made_boards(g: &ChessGame, m: Move)
    requires
        g.playable(),
        move_in_range(m, g.white_to_move),
        move_fits(g.position(), m),
        crate::legality::move_shape(g, m),
    ensures
        ({
            let q = g.after(m);
            let p = g.position();
            let w = g.white_to_move;
            let ok = g.our_offset() + 5;
            let tk = g.their_offset() + 5;
            &&& m.from_piece_type != Some(PieceType::King) ==> q.pb[ok] == p.pb[ok]
            &&& m.from_piece_type == Some(PieceType::King) ==> single_square(q.pb[ok]) && lsb(q.pb[ok]) == m.to_square
            &&& q.pb[tk] == p.pb[tk]
            &&& forall|t: int| #[trigger] has_bit(q.pb[g.our_offset() + 3], t) <== has_bit(p.pb[g.our_offset() + 3], t) && t != m.from_square && m.castle_side is None
            &&& forall|t: int| #[trigger] has_bit(q.pb[g.their_offset() + 3], t) <== has_bit(p.pb[g.their_offset() + 3], t) && !(m.to_piece_type == Some(PieceType::Rook) && t == m.to_square)
            &&& forall|t: int| #[trigger] has_bit(q.pb[0], t) ==> has_bit(p.pb[0], t) || (w && m.from_piece_type == Some(PieceType::Pawn) && m.pawn_promoting_to is None && t == m.to_square)
            &&& forall|t: int| #[trigger] has_bit(q.pb[6], t) ==> has_bit(p.pb[6], t) || (!w && m.from_piece_type == Some(PieceType::Pawn) && m.pawn_promoting_to is None && t == m.to_square)
        }),
{
    reveal(ChessGame::playable);
    let q = g.after(m);
    let p = g.position();
    let w = g.white_to_move;
    let ok = g.our_offset() + 5;
    let tk = g.their_offset() + 5;
    lemma_setb_clrb();
    lemma_game_consistent(g);
    let pm = mover_board(m, w);
    let d = dest_board(m, w);
    let q1 = made_pb_mover(p.pb, m, w);
    let q2 = made_pb_capture(q1, m, w);
    let q3 = made_pb_castle(q2, m, w);
    assert(q.pb == q3);
    if m.from_piece_type == Some(PieceType::King) {
        let kb = p.pb[ok];
        lemma_single_square(kb, m.from_square as int);
        lemma_lsb(kb);
        let to = m.to_square as u64;
        assert(pm == ok && d == ok);
        assert(q3[ok] == q1[ok]);
        assert(clrb(kb, m.from_square as int) == clear_lsb(kb));
        assert(q1[ok] == setb(0u64, m.to_square as int));
        lemma_one_square(to);
    }
    if m.to_piece_type == Some(PieceType::King) {
        assert(has_bit(p.pb[tk], m.to_square as int));
        lemma_single_square(p.pb[tk], m.to_square as int);
        assert(false);
    }
}

/// The board of one square `to`.
pub proof fn lemma_one_square(to: u64)
    requires
        to < 64,
    ensures
        single_square(0u64 | (1u64 << to)),
        lsb(0u64 | (1u64 << to)) == to,
{
    let b = 0u64 | (1u64 << to);
    assert(to < 64 ==> (0u64 | (1u64 << to)) != 0) by (bit_vector);
    lemma_lsb(b);
    crate::bitlemmas::lemma_has_bit_single(to, lsb(b) as int);
    crate::bitlemmas::lemma_bit_identities();
    assert(to < 64 ==> ((1u64 << to) & (((1u64 << to) - 1u64) as u64)) == 0) by (bit_vector);
}

/// Making a legal move of a playable game leaves a playable game: the
/// boards stay consistent, each side keeps one king, pawns stay off the
/// rank they would step off, castling rights and the en-passant target
/// still fit the board, and the side that moved is not left in check.
pub proof fn lemma_legal_move_keeps_playable(g: &ChessGame, m: Move, g2: &ChessGame)
    requires
        g.playable(),
        g.legal_moves_spec().contains(m),
        g2.position() == g.after(m),
        g2.bitboard_constants == g.bitboard_constants,
    ensures
        g2.playable(),
{
    reveal(ChessGame::playable);
    reveal(ChessGame::legal_moves_spec);
    lemma_legal_move_facts(g, m);
    let pm = choose|pm: Move| #[trigger] g.pseudo_moves().contains(pm) && m == (Move {
        is_check: m.is_check,
        ..g.annotate(pm)
    });
    let p = g.position();
    let q = g.after(m);
    let w = g.white_to_move;
    let k = g.bitboard_constants;
    lemma_game_consistent(g);
    crate::position::lemma_make_keeps_consistent(p, m, k);
    lemma_made_boards(g, m);
    lemma_setb_clrb();
    assert(g2.pb() == q.pb);
    assert(g2.occupancy_bitboards@ == q.occ);
    // Consistency and disjointness.
    assert(g2.occupancy_consistent());
    assert(g2.pieces_disjoint()) by {
        assert forall|i: int, j: int| 0 <= i < 12 && 0 <= j < 12 && i != j implies #[trigger] g2.pb()[i] & #[trigger] g2.pb()[j] == 0 by {
            assert(q.pb[i] & q.pb[j] == 0);
        }
    }
    // Kings.
    assert(single_square(g2.pb()[5]) && single_square(g2.pb()[11])) by {
        if w {
            assert(g.our_offset() + 5 == 5 && g.their_offset() + 5 == 11);
        } else {
            assert(g.our_offset() + 5 == 11 && g.their_offset() + 5 == 5);
        }
    }
    // Pawns.
    assert forall|t: int| #[trigger] has_bit(g2.pb()[0], t) implies t >= 8 by {
        assert(has_bit(q.pb[0], t));
    }
    assert forall|t: int| #[trigger] has_bit(g2.pb()[6], t) implies t < 56 by {
        assert(has_bit(q.pb[6], t));
    }
    // Castling rights.
    assert(g2.castling_rights_valid()) by {
        lemma_castling_kept(g, m, pm, g2);
    }
    // En passant.
    assert(g2.en_passant_valid()) by {
        lemma_en_passant_kept(g, m, g2);
    }
    // The mover is not in check.
    lemma_attacked_in_position(g2);
    assert(g2.their_offset() == g.our_offset());
    assert(g2.us() == g.them());
    assert(g.us().spec_offset() == g.our_offset());
}

/// Castling rights still fit the board after a legal move.
proof fn lemma_castling_kept(g: &ChessGame, m: Move, pm: Move, g2: &ChessGame)
    requires
        g.playable(),
        move_in_range(m, g.white_to_move),
        move_fits(g.position(), m),
        crate::legality::move_shape(g, m),
        m == (Move { is_check: m.is_check, ..g.annotate(pm) }),
        g2.position() == g.after(m),
    ensures
        g2.castling_rights_valid(),
{
    reveal(ChessGame::playable);
    let p = g.position();
    let q = g.after(m);
    let w = g.white_to_move;
    lemma_made_boards(g, m);
    lemma_game_consistent(g);
    assert(g2.pb() == q.pb);
    // A capture on a starting corner of the opponent's rook takes that rook.
    if m.to_piece_type is Some && m.to_piece_type != Some(PieceType::Rook) {
        let c = captured_board(m, w);
        lemma_square_consistent(p, m.to_square as int);
        if !is_ep_capture(m) {
            assert(has_bit(p.pb[c], m.to_square as int));
            assert(c != g.their_offset() + 3);
            assert(!has_bit(p.pb[g.their_offset() + 3], m.to_square as int));
        }
    }
    let pmb = mover_board(m, w);
    if w {
        assert(g.our_offset() == 0 && g.their_offset() == 6);
        if g2.can_white_castle_short {
            assert(has_bit(p.pb[3], 63));
            if m.from_square == 63 {
                lemma_square_consistent(p, 63);
                assert(pmb == 3);
            }
            assert(has_bit(q.pb[g.our_offset() + 3], 63));
        }
        if g2.can_white_castle_long {
            assert(has_bit(p.pb[3], 56));
            if m.from_square == 56 {
                lemma_square_consistent(p, 56);
                assert(pmb == 3);
            }
            assert(has_bit(q.pb[g.our_offset() + 3], 56));
        }
        if g2.can_black_castle_short {
            assert(has_bit(p.pb[9], 7));
            lemma_square_consistent(p, 7);
            assert(has_bit(q.pb[g.their_offset() + 3], 7));
        }
        if g2.can_black_castle_long {
            assert(has_bit(p.pb[9], 0));
            lemma_square_consistent(p, 0);
            assert(has_bit(q.pb[g.their_offset() + 3], 0));
        }
    } else {
        assert(g.our_offset() == 6 && g.their_offset() == 0);
        if g2.can_black_castle_short {
            assert(has_bit(p.pb[9], 7));
            if m.from_square == 7 {
                lemma_square_consistent(p, 7);
                assert(pmb == 9);
            }
            assert(has_bit(q.pb[g.our_offset() + 3], 7));
        }
        if g2.can_black_castle_long {
            assert(has_bit(p.pb[9], 0));
            if m.from_square == 0 {
                lemma_square_consistent(p, 0);
                assert(pmb == 9);
            }
            assert(has_bit(q.pb[g.our_offset() + 3], 0));
        }
        if g2.can_white_castle_short {
            assert(has_bit(p.pb[3], 63));
            lemma_square_consistent(p, 63);
            assert(has_bit(q.pb[g.their_offset() + 3], 63));
        }
        if g2.can_white_castle_long {
            assert(has_bit(p.pb[3], 56));
            lemma_square_consistent(p, 56);
            assert(has_bit(q.pb[g.their_offset() + 3], 56));
        }
    }
}

/// The en-passant target still fits the board after a legal move.
proof fn lemma_en_passant_kept(g: &ChessGame, m: Move, g2: &ChessGame)
    requires
        g.playable(),
        move_in_range(m, g.white_to_move),
        move_fits(g.position(), m),
        crate::legality::move_shape(g, m),
        g2.position() == g.after(m),
    ensures
        g2.en_passant_valid(),
{
    reveal(ChessGame::playable);
    let p = g.position();
    let q = g.after(m);
    let w = g.white_to_move;
    lemma_setb_clrb();
    lemma_game_consistent(g);
    crate::position::lemma_make_keeps_consistent(p, m, g.bitboard_constants);
    assert(g2.pb() == q.pb);
    assert(g2.occupancy_bitboards@ == q.occ);
    if m.next_en_passant_target_coord is Some {
        let e = m.next_en_passant_target_coord->0 as int;
        lemma_square_consistent(p, e);
        lemma_square_consistent(q, e);
        assert forall|i: int| 0 <= i < 12 implies !#[trigger] has_bit(q.pb[i], e) by {
            assert(!has_bit(p.pb[i], e));
        }
        assert(!has_bit(q.occ[2], e));
        if w {
            assert(has_bit(q.pb[0], e - 8));
        } else {
            assert(has_bit(q.pb[6], e + 8));
        }
    }
}

/// Two games with the same board, side to move, rights, en-passant target
/// and tables.
pub open spec fn same_board(g1: &ChessGame, g2: &ChessGame) -> bool {
    g1.position() == g2.position() && g1.bitboard_constants == g2.bitboard_constants
}

/// What the rules say of a game depends only on its board: games with the
/// same board have the same legal moves and are playable alike.
pub proof fn lemma_same_board_same_moves(g1: &ChessGame, g2: &ChessGame)
    requires
        same_board(g1, g2),
    ensures
        g1.legal_moves_spec() == g2.legal_moves_spec(),
        g1.playable() == g2.playable(),
        g1.pseudo_moves() == g2.pseudo_moves(),
{
    reveal(ChessGame::playable);
    reveal(ChessGame::legal_moves_spec);
    assert(g1.pb() == g2.pb());
    assert(g1.piece_bitboards =~= g2.piece_bitboards);
    assert(g1.occupancy_bitboards =~= g2.occupancy_bitboards);
    assert forall|s: usize, piece: PieceType, attacks: u64|
        #[trigger] g1.moves_to_attacked(s, piece, attacks) == g2.moves_to_attacked(s, piece, attacks) by {
        assert((|t: usize| g1.target_move(s, piece, t, false)) =~= (|t: usize| g2.target_move(s, piece, t, false)));
        assert((|t: usize| g1.target_move(s, piece, t, true)) =~= (|t: usize| g2.target_move(s, piece, t, true)));
    }
    assert((|s: usize| g1.moves_to_attacked(s, PieceType::Knight, g1.bitboard_constants.knight_attacks@[s as int]))
        =~= (|s: usize| g2.moves_to_attacked(s, PieceType::Knight, g2.bitboard_constants.knight_attacks@[s as int])));
    assert forall|piece: PieceType| #[trigger] g1.slider_moves(piece) == g2.slider_moves(piece) by {
        assert((|s: usize| g1.moves_to_attacked(s, piece, crate::movegen::slider_attacks(piece, s as int, g1.occ(2))))
            =~= (|s: usize| g2.moves_to_attacked(s, piece, crate::movegen::slider_attacks(piece, s as int, g2.occ(2)))));
    }
    assert forall|s: usize| #[trigger] g1.pawn_capture_moves(s) == g2.pawn_capture_moves(s) by {
        assert((|t: usize| g1.pawn_capture_moves_to(s, t)) =~= (|t: usize| g2.pawn_capture_moves_to(s, t)));
    }
    assert((|s: usize| g1.pawn_push_moves(s) + g1.pawn_capture_moves(s) + g1.pawn_ep_moves(s))
        =~= (|s: usize| g2.pawn_push_moves(s) + g2.pawn_capture_moves(s) + g2.pawn_ep_moves(s)));
    lemma_attacked_in_position(g1);
    lemma_attacked_in_position(g2);
    assert(g1.king_moves() == g2.king_moves());
    assert(g1.pseudo_moves() == g2.pseudo_moves());
    lemma_same_board_legal_from(g1, g2, g1.pseudo_moves());
    assert((|m: Move| g1.sort_key(m)) =~= (|m: Move| g2.sort_key(m)));
}

proof fn lemma_same_board_legal_from(g1: &ChessGame, g2: &ChessGame, ms: Seq<Move>)
    requires
        same_board(g1, g2),
    ensures
        g1.legal_from(ms) == g2.legal_from(ms),
    decreases ms.len(),
{
    if ms.len() > 0 {
        lemma_same_board_legal_from(g1, g2, ms.drop_last());
        assert(g1.annotate(ms.last()) == g2.annotate(ms.last()));
        assert(g1.after(g1.annotate(ms.last())) == g2.after(g2.annotate(ms.last())));
    }
}

impl<'a> ChessGame<'a> {
    /// Stores `moves` as the legal moves, or, given nothing, the legal moves
    /// of the position.
    pub fn set_legal_moves(&mut self, moves: Option<Vec<Move>>)
        requires
            moves is None ==> old(self).playable(),
        ensures
            final(self).legal_moves@ == (match moves {
                Some(v) => v@,
                None => old(self).legal_moves_spec(),
            }),
            *final(self) == (ChessGame { legal_moves: final(self).legal_moves, ..*old(self) }),
        decreases 3int,
    {
        proof {
            reveal(ChessGame::playable);
            reveal(ChessGame::legal_moves_spec);
        }
        let new_moves = match moves {
            Some(m) => m,
            None => self.get_legal_moves(),
        };
        self.legal_moves = new_moves;
    }

    /// The legal move that matches `this_move` (same squares and promotion),
    /// with all its bookkeeping filled in.
    pub fn choose_move_from_legal_move(&mut self, this_move: &Move) -> (r: Option<Move>)
        requires
            old(self).playable(),
        ensures
            r == first_same(old(self).legal_moves_spec(), *this_move),
            *final(self) == *old(self),
    {
        proof {
            reveal(ChessGame::playable);
            reveal(ChessGame::legal_moves_spec);
        }
        let moves = self.get_legal_moves();
        let n = moves.len();
        proof {
            assert(moves@.subrange(0, n as int) =~= moves@);
        }
        for i in 0..n
            invariant
                n == moves@.len(),
                *self == *old(self),
                moves@ == old(self).legal_moves_spec(),
                first_same(moves@, *this_move) == first_same(moves@.subrange(i as int, n as int), *this_move),
        {
            proof {
                assert(moves@.subrange(i as int, n as int).drop_first() =~= moves@.subrange(i + 1, n as int));
            }
            let found = moves[i] == *this_move;
            proof {
                assert(moves@.subrange(i as int, n as int)[0] == moves@[i as int]);
            }
            if found {
                return Some(moves[i]);
            }
        }
        proof {
            assert(moves@.subrange(n as int, n as int).len() == 0);
        }
        None
    }

    /// The side to move has no legal move and its king is attacked.
    pub fn is_checkmate(&self) -> (r: bool)
        requires
            self.playable(),
        ensures
            r == (self.legal_moves@.len() == 0 && in_check(self.position(), self.us())),
    {
        proof {
            reveal(ChessGame::playable);
        }
        if self.legal_moves.len() != 0 {
            return false;
        }
        let our_color = if self.white_to_move { Color::White } else { Color::Black };
        self.is_king_attacked(&our_color)
    }

    /// The side to move has no legal move and its king is not attacked.
    pub fn is_stalemate(&self) -> (r: bool)
        requires
            self.playable(),
        ensures
            r == (self.legal_moves@.len() == 0 && !in_check(self.position(), self.us())),
    {
        proof {
            reveal(ChessGame::playable);
        }
        if self.legal_moves.len() != 0 {
            return false;
        }
        let our_color = if self.white_to_move { Color::White } else { Color::Black };
        !self.is_king_attacked(&our_color)
    }
}

/// The first move of `ms` with the same squares and promotion as `m`.
pub open spec fn first_same(ms: Seq<Move>, m: Move) -> Option<Move>
    decreases ms.len(),
{
    if ms.len() == 0 {
        None
    } else if same_move(ms[0], m) {
        Some(ms[0])
    } else {
        first_same(ms.drop_first(), m)
    }
}

/// How often `x` occurs in `ms`.
pub open spec fn occurrences(ms: Seq<Move>, x: Move) -> nat
    decreases ms.len(),
{
    if ms.len() == 0 {
        0
    } else {
        occurrences(ms.drop_last(), x) + if ms.last() == x { 1nat } else { 0nat }
    }
}

proof fn lemma_occurrences_concat(a: Seq<Move>, b: Seq<Move>, x: Move)
    ensures
        occurrences(a + b, x) == occurrences(a, x) + occurrences(b, x),
    decreases b.len(),
{
    if b.len() == 0 {
        assert(a + b =~= a);
    } else {
        assert((a + b).drop_last() =~= a + b.drop_last());
        lemma_occurrences_concat(a, b.drop_last(), x);
    }
}

proof fn lemma_with_key_facts(ms: Seq<Move>, key: spec_fn(Move) -> int, k: int, x: Move)
    ensures
        occurrences(with_key(ms, key, k), x) == if key(x) == k { occurrences(ms, x) } else { 0 },
        forall|i: int| 0 <= i < with_key(ms, key, k).len() ==> key(#[trigger] with_key(ms, key, k)[i]) == k,
    decreases ms.len(),
{
    if ms.len() > 0 {
        lemma_with_key_facts(ms.drop_last(), key, k, x);
        let rest = with_key(ms.drop_last(), key, k);
        if key(ms.last()) == k {
            assert(rest.push(ms.last()).drop_last() =~= rest);
        }
    }
}

proof fn lemma_ordered_facts(ms: Seq<Move>, key: spec_fn(Move) -> int, lo: int, hi: int, x: Move)
    ensures
        occurrences(ordered_by_key(ms, key, lo, hi), x) == if lo <= key(x) <= hi {
            occurrences(ms, x)
        } else {
            0
        },
        forall|i: int|
            0 <= i < ordered_by_key(ms, key, lo, hi).len() ==> lo <= key(
                #[trigger] ordered_by_key(ms, key, lo, hi)[i],
            ) <= hi,
        forall|i: int, j: int|
            0 <= i < j < ordered_by_key(ms, key, lo, hi).len() ==> key(
                #[trigger] ordered_by_key(ms, key, lo, hi)[i],
            ) <= key(#[trigger] ordered_by_key(ms, key, lo, hi)[j]),
    decreases hi - lo + 1,
{
    if hi >= lo {
        let a = ordered_by_key(ms, key, lo, hi - 1);
        let b = with_key(ms, key, hi);
        lemma_ordered_facts(ms, key, lo, hi - 1, x);
        lemma_with_key_facts(ms, key, hi, x);
        lemma_occurrences_concat(a, b, x);
        assert(ordered_by_key(ms, key, lo, hi) == a + b);
        assert forall|i: int| 0 <= i < (a + b).len() implies lo <= key(#[trigger] (a + b)[i]) <= hi by {
            if i < a.len() {
                assert((a + b)[i] == a[i]);
            } else {
                assert((a + b)[i] == b[i - a.len()]);
            }
        }
        assert forall|i: int, j: int| 0 <= i < j < (a + b).len() implies key(#[trigger] (a + b)[i]) <= key(
            #[trigger] (a + b)[j],
        ) by {
            if j < a.len() {
                assert((a + b)[i] == a[i] && (a + b)[j] == a[j]);
            } else if i >= a.len() {
                assert((a + b)[i] == b[i - a.len()] && (a + b)[j] == b[j - a.len()]);
            } else {
                assert((a + b)[i] == a[i] && (a + b)[j] == b[j - a.len()]);
            }
        }
    }
}

/// Every move's ordering key lies between the smallest and largest key.
pub proof fn lemma_sort_key_bounds(g: &ChessGame, m: Move)
    ensures
        SORT_KEY_MIN <= g.sort_key(m) <= SORT_KEY_MAX,
{
}

/// The moves `ms` ordered for the search of `g`.
pub open spec fn ordered_for_search(g: &ChessGame, ms: Seq<Move>) -> Seq<Move> {
    ordered_by_key(ms, |m: Move| g.sort_key(m), SORT_KEY_MIN as int, SORT_KEY_MAX as int)
}

/// Ordering moves for the search keeps each move exactly as often as it
/// occurs, and leaves them in order of increasing key.
pub proof fn lemma_sort_moves_law(g: &ChessGame, ms: Seq<Move>, x: Move)
    ensures
        occurrences(ordered_for_search(g, ms), x) == occurrences(ms, x),
        ordered_for_search(g, ms).len() == ms.len(),
        forall|i: int, j: int|
            0 <= i < j < ordered_for_search(g, ms).len() ==> g.sort_key(
                #[trigger] ordered_for_search(g, ms)[i],
            ) <= g.sort_key(#[trigger] ordered_for_search(g, ms)[j]),
{
    let key = |m: Move| g.sort_key(m);
    lemma_sort_key_bounds(g, x);
    assert forall|m: Move| SORT_KEY_MIN <= #[trigger] key(m) <= SORT_KEY_MAX by {
        lemma_sort_key_bounds(g, m);
    }
    lemma_ordered_facts(ms, key, SORT_KEY_MIN as int, SORT_KEY_MAX as int, x);
    lemma_ordered_len(ms, key, SORT_KEY_MIN as int, SORT_KEY_MAX as int);
}

/// Ordering keeps the number of moves when every key is in range.
proof fn lemma_ordered_len(ms: Seq<Move>, key: spec_fn(Move) -> int, lo: int, hi: int)
    requires
        forall|m: Move| lo <= #[trigger] key(m) <= hi,
    ensures
        ordered_by_key(ms, key, lo, hi).len() == ms.len(),
    decreases ms.len(),
{
    if ms.len() > 0 {
        lemma_ordered_len(ms.drop_last(), key, lo, hi);
    }
    lemma_ordered_len_split(ms, key, lo, hi);
}

/// The length of the ordering of `ms` is that of its front plus one when
/// the last key is in range.
proof fn lemma_ordered_len_split(ms: Seq<Move>, key: spec_fn(Move) -> int, lo: int, hi: int)
    ensures
        ms.len() > 0 ==> ordered_by_key(ms, key, lo, hi).len() == ordered_by_key(ms.drop_last(), key, lo, hi).len()
            + if lo <= key(ms.last()) <= hi { 1int } else { 0int },
        ms.len() == 0 ==> ordered_by_key(ms, key, lo, hi).len() == 0,
    decreases hi - lo + 1,
{
    if hi >= lo {
        lemma_ordered_len_split(ms, key, lo, hi - 1);
    }
}

} // verus!
