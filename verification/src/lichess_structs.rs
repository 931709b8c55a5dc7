//! The messages of the Lichess bot API that the engine reads, as plain data.
use vstd::prelude::*;
use crate::fen::find_space;

verus! {

/// A Lichess user as the API describes one.
pub struct UserBasic {
    pub id: String,
    pub name: String,
    pub title: Option<String>,
    pub rating: u32,
    pub provisional: bool,
}

/// The state of a running game: the moves played so far, in coordinate
/// notation separated by spaces, the clocks and the status.
pub struct GameState {
    pub event_type: String,
    pub moves: String,
    pub wtime: u32,
    pub btime: u32,
    pub winc: u32,
    pub binc: u32,
    pub status: String,
}

impl Default for UserBasic {
    /// A user with empty id and name, no title, rating 0, not provisional.
    fn default() -> (r: Self)
        ensures
            r.id@ == Seq::<char>::empty(),
            r.name@ == Seq::<char>::empty(),
            r.title is None,
            r.rating == 0,
            !r.provisional,
    {
        UserBasic { id: String::new(), name: String::new(), title: None, rating: 0, provisional: false }
    }
}

impl Default for GameState {
    /// A state with no moves, zero clocks and empty type and status.
    fn default() -> (r: Self)
        ensures
            r.event_type@ == Seq::<char>::empty(),
            r.moves@ == Seq::<char>::empty(),
            r.wtime == 0 && r.btime == 0 && r.winc == 0 && r.binc == 0,
            r.status@ == Seq::<char>::empty(),
    {
        GameState {
            event_type: String::new(),
            moves: String::new(),
            wtime: 0,
            btime: 0,
            winc: 0,
            binc: 0,
            status: String::new(),
        }
    }
}

/// The full description of a game, sent when its stream opens.
pub struct GameFull {
    pub event_type: String,
    pub id: String,
    pub white: UserBasic,
    pub black: UserBasic,
    pub state: GameState,
    pub initial_fen: String,
}

impl Default for GameFull {
    /// A game with empty type, id and starting position, default players
    /// and a default state.
    fn default() -> (r: Self)
        ensures
            r.event_type@ == Seq::<char>::empty(),
            r.id@ == Seq::<char>::empty(),
            r.white.id@ == Seq::<char>::empty() && r.white.name@ == Seq::<char>::empty()
                && r.white.title is None && r.white.rating == 0 && !r.white.provisional,
            r.black.id@ == Seq::<char>::empty() && r.black.name@ == Seq::<char>::empty()
                && r.black.title is None && r.black.rating == 0 && !r.black.provisional,
            r.state.event_type@ == Seq::<char>::empty() && r.state.moves@ == Seq::<char>::empty()
                && r.state.wtime == 0 && r.state.btime == 0 && r.state.winc == 0 && r.state.binc == 0
                && r.state.status@ == Seq::<char>::empty(),
            r.initial_fen@ == Seq::<char>::empty(),
    {
        GameFull {
            event_type: String::new(),
            id: String::new(),
            white: UserBasic::default(),
            black: UserBasic::default(),
            state: GameState::default(),
            initial_fen: String::new(),
        }
    }
}

/// A challenge event.
pub struct Challenge {
    pub event_type: String,
    pub challenge: InnerChallenge,
}

/// The challenge itself: who challenges whom.
pub struct InnerChallenge {
    pub id: String,
    pub url: String,
    pub status: String,
    pub challenger: UserBasic,
    pub dest_user: UserBasic,
}

/// A game-start event.
pub struct ChallengeGameStart {
    pub event_type: String,
    pub game: InnerChallengeGameStart,
}

/// The game that starts: its id, the bot's colour, the starting position.
pub struct InnerChallengeGameStart {
    pub id: String,
    pub color: String,
    pub fen: String,
    pub source: String,
    pub has_moved: bool,
    pub is_my_turn: bool,
    pub last_move: String,
}

/// A chat message in a game.
pub struct ChatLineEvent {
    pub event_type: String,
    pub username: String,
    pub text: String,
    pub room: String,
}

/// The pieces of `t` from `start` on, split at each single space.
pub open spec fn space_pieces(t: Seq<char>, start: int) -> Seq<Seq<char>>
    decreases t.len() - start,
{
    let e = find_space(t, start);
    if start < 0 || start > t.len() {
        seq![]
    } else if e < t.len() {
        proof {
            crate::fen::lemma_find_space_bounds(t, start);
        }
        seq![t.subrange(start, e)] + space_pieces(t, e + 1)
    } else {
        seq![t.subrange(start, e)]
    }
}

impl GameState {
    /// The moves played, one string per move: nothing for an empty move
    /// list, else the move text split at each space.
    pub fn moves_to_vec(&self) -> (r: Vec<String>)
        requires
            self.moves@.len() < usize::MAX,
        ensures
            self.moves@.len() == 0 ==> r@.len() == 0,
            self.moves@.len() > 0 ==> r@.map_values(|s: String| s@) == space_pieces(self.moves@, 0),
    {
        let mut moves_vec: Vec<String> = Vec::new();
        let t = self.moves.as_str();
        let n = t.unicode_len();
        proof {
            assert(t@ == self.moves@);
        }
        if n == 0 {
            return moves_vec;
        }
        let mut start: usize = 0;
        loop
            invariant
                t@ == self.moves@,
                n == t@.len(),
                0 < n < usize::MAX,
                start <= n,
                moves_vec@.map_values(|s: String| s@) + space_pieces(t@, start as int) == space_pieces(t@, 0),
            decreases n - start,
        {
            let end = crate::fen::find_space_from(t, start);
            let piece = String::from_str(t.substring_char(start, end));
            let ghost before = moves_vec@;
            moves_vec.push(piece);
            proof {
                assert(moves_vec@.map_values(|s: String| s@) =~= before.map_values(|s: String| s@).push(t@.subrange(start as int, end as int)));
            }
            if end >= n {
                proof {
                    assert(space_pieces(t@, start as int) == seq![t@.subrange(start as int, end as int)]);
                    assert(moves_vec@.map_values(|s: String| s@) =~= space_pieces(t@, 0));
                }
                return moves_vec;
            }
            proof {
                assert(moves_vec@.map_values(|s: String| s@) + space_pieces(t@, end + 1) =~= before.map_values(|s: String| s@) + space_pieces(t@, start as int));
            }
            start = end + 1;
        }
    }
}

} // verus!
