//! A bitboard chess engine: board representation, move generation,
//! make/unmake, position evaluation and an alpha-beta search.
pub mod helpers;
pub mod text;
pub mod color;
pub mod constants;
pub mod piece_type;
pub mod coord;
pub mod castle_sides;
pub mod game_states;
pub mod chess_move;
pub mod bitlemmas;
pub mod runtime_calculated_constants;
pub mod occupancy;
pub mod transposition_table_entry;
pub mod chess_game;
pub mod rays;
pub mod position;
pub mod make_unmake;
pub mod movegen;
pub mod legality;
pub mod legal_moves;
pub mod evaluation;
pub mod search;
pub mod clock;
pub mod fen;
pub mod fen_round_trip;
pub mod hashing;
pub mod playability;
pub mod bot;
pub mod minimax_value;
pub mod rule_laws;
pub mod lichess_structs;
pub mod laws;
