//! The decisions of the Lichess bot: which challenges it accepts, and, for
//! each event of a game's stream, what it does next. The network work (the
//! streams, sending moves and chat lines) is done by the caller.
use vstd::prelude::*;
use crate::chess_game::ChessGame;
use crate::chess_move::{Move, parse_move};
use crate::fen::{fen_ok, fen_board_on_board, fen_ep_fits, fen_is_readable};
use crate::text::is_ascii_text;
use crate::legal_moves::{first_same, same_board, lemma_same_board_same_moves, lemma_legal_move_facts};
use crate::lichess_structs::{GameState, space_pieces};
use crate::position::Position;
use crate::runtime_calculated_constants::Constants;
use crate::search::{game_with, deepen, table_moves_named, lemma_same_board_deepen, deepening_stops};

verus! {

/// Whether the two texts are the same.
pub fn same_text(a: &str, b: &str) -> (r: bool)
    ensures
        r == (a@ == b@),
{
    let n = a.unicode_len();
    if n != b.unicode_len() {
        return false;
    }
    let mut i: usize = 0;
    while i < n
        invariant
            n == a@.len() == b@.len(),
            i <= n,
            forall|j: int| 0 <= j < i ==> a@[j] == b@[j],
        decreases n - i,
    {
        if a.get_char(i) != b.get_char(i) {
            return false;
        }
        i += 1;
    }
    proof {
        assert(a@ =~= b@);
    }
    true
}

/// Whether a challenge from user `name` is accepted: only users on the
/// whitelist may challenge the bot.
pub fn accepts_challenge(name: &str, whitelist: &Vec<String>) -> (r: bool)
    ensures
        r == (exists|i: int| 0 <= i < whitelist@.len() && (#[trigger] whitelist@[i])@ == name@),
{
    let mut i: usize = 0;
    while i < whitelist.len()
        invariant
            i <= whitelist@.len(),
            forall|j: int| 0 <= j < i ==> (#[trigger] whitelist@[j])@ != name@,
        decreases whitelist@.len() - i,
    {
        if same_text(whitelist[i].as_str(), name) {
            return true;
        }
        i += 1;
    }
    false
}

/// What arrives on a game's stream, once parsed.
pub enum GameEvent {
    /// The empty line that keeps the connection open.
    KeepAlive,
    /// The opponent left the game.
    OpponentGone,
    /// A chat line.
    Chat { text: String },
    /// The full game, sent first: how it started, who plays white, and the
    /// status of its state.
    Full { initial_fen: String, white_id: String, status: String },
    /// The state after a move: all moves so far and the status.
    State { moves: String, status: String },
    /// Anything else.
    Other,
}

/// What the bot does after an event.
pub enum BotAction {
    /// Nothing; wait for the next event.
    Wait,
    /// Print the game's state and say so in the chat.
    ReportDebug,
    /// Send this move.
    Play(Move),
    /// Leave the game.
    Stop,
}

/// What the bot remembers of a game besides the board: its colour and the
/// status last reported.
pub struct BotSession {
    pub is_bot_white: bool,
    pub status: String,
}

/// The kind of action the rules of the bot call for; which move it plays
/// is left to the search.
pub enum BotStep {
    Wait,
    ReportDebug,
    Think,
    Stop,
}

/// An action is of the kind a step calls for.
pub open spec fn action_fits(r: BotAction, step: BotStep) -> bool {
    match step {
        BotStep::Wait => r is Wait,
        BotStep::ReportDebug => r is ReportDebug,
        BotStep::Think => r is Play,
        BotStep::Stop => r is Stop,
    }
}

/// Once the board is up to date: wait when it is not the bot's turn, stop
/// when the game is no longer running or no legal move is left, else
/// choose a move.
pub open spec fn turn_step(p: Position, k: &Constants, s: BotSession) -> BotStep {
    if p.white_to_move != s.is_bot_white {
        BotStep::Wait
    } else if s.status@ != "started"@ {
        BotStep::Stop
    } else if game_with(p, k).legal_moves_spec().len() == 0 {
        BotStep::Stop
    } else {
        BotStep::Think
    }
}

/// What the bot does on event `e` of a game it plays as `bot_name`, whose
/// starting position is `start_fen`: the step, the session and the position
/// afterwards.
/// - Keep-alive lines, a departed opponent and unknown events: wait.
/// - A chat line: report the game's state when it reads "debug".
/// - The full game: stop unless it started from the initial position;
///   otherwise note the bot's colour and the status, set up the starting
///   position (stopping when it cannot be read or played from), and take
///   the turn.
/// - A state: with no moves yet, wait; otherwise note the status, make the
///   last move (stopping when it is not a legal move here), and take the
///   turn.
pub open spec fn next_step(
    g: ChessGame,
    s: BotSession,
    bot_name: Seq<char>,
    start_fen: Seq<char>,
    e: GameEvent,
) -> (BotStep, BotSession, Position) {
    let k = g.bitboard_constants;
    match e {
        GameEvent::Chat { text } => (
            if text@ == "debug"@ { BotStep::ReportDebug } else { BotStep::Wait },
            s,
            g.position(),
        ),
        GameEvent::Full { initial_fen, white_id, status } => {
            if initial_fen@ != "startpos"@ {
                (BotStep::Stop, s, g.position())
            } else {
                let s2 = BotSession { is_bot_white: white_id@ == bot_name, status: status };
                if !(start_fen.len() <= usize::MAX / 16 && fen_board_on_board(start_fen) && fen_ep_fits(start_fen)) {
                    (BotStep::Stop, s2, g.position())
                } else {
                    let p = g.imported_position(start_fen);
                    if !fen_ok(start_fen) || !game_with(p, k).playable() {
                        (BotStep::Stop, s2, p)
                    } else {
                        (turn_step(p, k, s2), s2, p)
                    }
                }
            }
        },
        GameEvent::State { moves, status } => {
            let ms = space_pieces(moves@, 0);
            if moves@.len() == 0 || moves@.len() >= usize::MAX || ms.len() == 0 {
                (BotStep::Wait, s, g.position())
            } else {
                let s2 = BotSession { status: status, ..s };
                match parse_move(ms.last()) {
                    None => (BotStep::Stop, s2, g.position()),
                    Some(raw) => if !g.playable() {
                        (BotStep::Stop, s2, g.position())
                    } else {
                        match first_same(g.legal_moves_spec(), raw) {
                            None => (BotStep::Stop, s2, g.position()),
                            Some(m) => (turn_step(g.after(m), k, s2), s2, g.after(m)),
                        }
                    },
                }
            }
        },
        _ => (BotStep::Wait, s, g.position()),
    }
}

/// The move found is a member of the moves searched.
pub proof fn lemma_first_same_member(ms: Seq<Move>, x: Move)
    ensures
        first_same(ms, x) matches Some(m) ==> ms.contains(m),
    decreases ms.len(),
{
    if ms.len() > 0 {
        lemma_first_same_member(ms.drop_first(), x);
        if first_same(ms, x) is Some && !crate::chess_move::same_move(ms[0], x) {
            let m = first_same(ms, x)->0;
            let j = choose|j: int| 0 <= j < ms.drop_first().len() && ms.drop_first()[j] == m;
            assert(ms[j + 1] == m);
        } else if first_same(ms, x) is Some {
            assert(ms[0] == first_same(ms, x)->0);
        }
    }
}

impl<'a> ChessGame<'a> {
    /// Takes the turn once the board is up to date (see `turn_step`).
    fn turn_action(&mut self, s: &BotSession) -> (r: BotAction)
        requires
            old(self).playable(),
            old(self).legal_moves@ == old(self).legal_moves_spec(),
            table_moves_named(old(self).tt_view()),
        ensures
            action_fits(r, turn_step(old(self).position(), old(self).bitboard_constants, *s)),
            same_board(final(self), old(self)),
            table_moves_named(final(self).tt_view()),
            r matches BotAction::Play(m) ==> exists|readings: Seq<u128>|
                #[trigger] deepening_stops(readings) && Some(m) == deepen(
                    game_with(old(self).position(), old(self).bitboard_constants),
                    old(self).tt_view(),
                    readings.len(),
                ).1,
    {
        let ghost g0 = *self;
        let ghost k = self.bitboard_constants;
        let ghost gw = game_with(g0.position(), k);
        proof {
            assert(g0.position() == g0.position() && g0.bitboard_constants == k);
            assert(same_board(&gw, &g0));
            lemma_same_board_same_moves(&gw, &g0);
        }
        if self.white_to_move != s.is_bot_white {
            return BotAction::Wait;
        }
        if !same_text(s.status.as_str(), "started") {
            return BotAction::Stop;
        }
        if self.legal_moves.len() == 0 {
            return BotAction::Stop;
        }
        let m = self.get_bot_move();
        proof {
            let readings = choose|readings: Seq<u128>|
                #[trigger] deepening_stops(readings) && Some(m) == deepen(g0, g0.tt_view(), readings.len()).1
                    && self.tt_view() == deepen(g0, g0.tt_view(), readings.len()).2;
            lemma_same_board_deepen(gw, g0, g0.tt_view(), readings.len());
        }
        BotAction::Play(m)
    }

    /// The full game arrived: see `next_step`.
    #[verifier::rlimit(40)]
    fn on_full(
        &mut self,
        s: &mut BotSession,
        bot_name: &str,
        start_fen: &str,
        initial_fen: String,
        white_id: String,
        status: String,
    ) -> (r: BotAction)
        requires
            old(self).bitboard_constants.shaped(),
            table_moves_named(old(self).tt_view()),
        ensures
            ({
                let (step, s2, p) = next_step(
                    *old(self),
                    *old(s),
                    bot_name@,
                    start_fen@,
                    GameEvent::Full { initial_fen, white_id, status },
                );
                &&& action_fits(r, step)
                &&& *final(s) == s2
                &&& final(self).position() == p
                &&& (r matches BotAction::Play(m) ==> exists|readings: Seq<u128>|
                    #[trigger] deepening_stops(readings) && Some(m) == deepen(
                        game_with(p, old(self).bitboard_constants),
                        old(self).tt_view(),
                        readings.len(),
                    ).1)
            }),
            final(self).bitboard_constants == old(self).bitboard_constants,
            table_moves_named(final(self).tt_view()),
    {
        let ghost k = self.bitboard_constants;
        if !same_text(initial_fen.as_str(), "startpos") {
            return BotAction::Stop;
        }
        s.is_bot_white = same_text(white_id.as_str(), bot_name);
        s.status = status;
        if !fen_is_readable(start_fen) {
            return BotAction::Stop;
        }
        let read = self.import_fen(start_fen);
        let ghost g1 = *self;
        let ghost gw = game_with(g1.position(), k);
        proof {
            assert(g1.position() == g1.position() && g1.bitboard_constants == k);
            assert(same_board(&gw, &g1));
            lemma_same_board_same_moves(&gw, &g1);
        }
        if read.is_err() {
            return BotAction::Stop;
        }
        if !self.is_playable() {
            return BotAction::Stop;
        }
        self.set_legal_moves(None);
        proof {
            assert(same_board(self, &g1));
            lemma_same_board_same_moves(self, &g1);
        }
        self.turn_action(s)
    }

    /// A state arrived: see `next_step`.
    fn on_state(&mut self, s: &mut BotSession, moves: String, status: String) -> (r: BotAction)
        requires
            old(self).bitboard_constants.shaped(),
            table_moves_named(old(self).tt_view()),
        ensures
            ({
                let (step, s2, p) = next_step(
                    *old(self),
                    *old(s),
                    Seq::empty(),
                    Seq::empty(),
                    GameEvent::State { moves, status },
                );
                &&& action_fits(r, step)
                &&& *final(s) == s2
                &&& final(self).position() == p
                &&& (r matches BotAction::Play(m) ==> exists|readings: Seq<u128>|
                    #[trigger] deepening_stops(readings) && Some(m) == deepen(
                        game_with(p, old(self).bitboard_constants),
                        old(self).tt_view(),
                        readings.len(),
                    ).1)
            }),
            final(self).bitboard_constants == old(self).bitboard_constants,
            table_moves_named(final(self).tt_view()),
    {
        let ghost g0 = *self;
        let ghost moves_view = moves@;
        if moves.unicode_len() == usize::MAX {
            return BotAction::Wait;
        }
        let state = GameState {
            event_type: String::new(),
            moves: moves,
            wtime: 0,
            btime: 0,
            winc: 0,
            binc: 0,
            status: String::new(),
        };
        let all = state.moves_to_vec();
        let n = all.len();
        if n == 0 {
            return BotAction::Wait;
        }
        proof {
            assert(all@.map_values(|x: String| x@).len() == all@.len());
            assert(all@.map_values(|x: String| x@)[n - 1] == all@[n - 1]@);
            assert(space_pieces(moves_view, 0).last() == all@[n - 1]@);
        }
        s.status = status;
        if !is_ascii_text(all[n - 1].as_str()) {
            proof {
                crate::chess_move::lemma_non_ascii_no_move(all@[n - 1]@);
            }
            return BotAction::Stop;
        }
        let raw = match Move::str_to_move(all[n - 1].as_str()) {
            Ok(m) => m,
            Err(_) => {
                return BotAction::Stop;
            },
        };
        if !self.is_playable() {
            return BotAction::Stop;
        }
        let chosen = self.choose_move_from_legal_move(&raw);
        match chosen {
            None => BotAction::Stop,
            Some(m) => {
                proof {
                    lemma_first_same_member(g0.legal_moves_spec(), raw);
                    lemma_legal_move_facts(&g0, m);
                }
                self.make_move(&m, true);
                self.turn_action(s)
            },
        }
    }

    /// What the bot does on event `e` of the game it plays as `bot_name`,
    /// started from `start_fen`: exactly `next_step`, with the move to play
    /// chosen by iterative deepening from the position reached.
    pub fn next_action(&mut self, s: &mut BotSession, bot_name: &str, start_fen: &str, e: GameEvent) -> (r: BotAction)
        requires
            old(self).bitboard_constants.shaped(),
            table_moves_named(old(self).tt_view()),
        ensures
            ({
                let (step, s2, p) = next_step(*old(self), *old(s), bot_name@, start_fen@, e);
                &&& action_fits(r, step)
                &&& *final(s) == s2
                &&& final(self).position() == p
                &&& (r matches BotAction::Play(m) ==> exists|readings: Seq<u128>|
                    #[trigger] deepening_stops(readings) && Some(m) == deepen(
                        game_with(p, old(self).bitboard_constants),
                        old(self).tt_view(),
                        readings.len(),
                    ).1)
            }),
            final(self).bitboard_constants == old(self).bitboard_constants,
            table_moves_named(final(self).tt_view()),
    {
        match e {
            GameEvent::Chat { text } => {
                if same_text(text.as_str(), "debug") {
                    BotAction::ReportDebug
                } else {
                    BotAction::Wait
                }
            },
            GameEvent::Full { initial_fen, white_id, status } => {
                self.on_full(s, bot_name, start_fen, initial_fen, white_id, status)
            },
            GameEvent::State { moves, status } => self.on_state(s, moves, status),
            _ => BotAction::Wait,
        }
    }
}

} // verus!
