//! Cached search results keyed by position hash.
use vstd::prelude::*;
use crate::chess_move::Move;

verus! {

#[derive(Copy, Clone)]
pub enum TranspositionTableNodeType {
    Exact,
    LowerBound,
    UpperBound,
}

#[derive(Copy, Clone)]
pub struct TranspositionTableEntry {
    pub zobrist_hash: u64,
    pub best_move: Option<Move>,
    pub depth: u32,
    pub evaluation: i64,
    pub node_type: TranspositionTableNodeType,
    pub age: u128,
}

} // verus!
