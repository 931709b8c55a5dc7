//! Round trips between the text forms and the values they name.
use vstd::prelude::*;
use crate::chess_move::{Move, move_text, parse_move, same_move};
use crate::color::Color;
use crate::helpers::{coord_text, parse_coord};
use crate::piece_type::{PieceType, piece_of_char};

verus! {

/// Naming a square and reading the name back gives the square.
pub proof fn lemma_coord_round_trip(sq: int)
    requires
        0 <= sq < 64,
    ensures
        parse_coord(coord_text(sq)) == Some(sq as usize),
{
    let t = coord_text(sq);
    assert(t.len() == 2);
    assert(t[0] == (97 + sq % 8) as char);
    assert(t[1] == (48 + 8 - sq / 8) as char);
    assert((8 - (8 - sq / 8)) * 8 + sq % 8 == sq) by (nonlinear_arith)
        requires
            0 <= sq < 64,
    ;
}

/// Writing a move in coordinate notation and reading it back gives a move
/// between the same squares with the same promotion.
pub proof fn lemma_move_text_round_trip(m: Move)
    requires
        m.from_square < 64,
        m.to_square < 64,
    ensures
        parse_move(move_text(m)) matches Some(back) && same_move(back, m),
{
    let t = move_text(m);
    lemma_coord_round_trip(m.from_square as int);
    lemma_coord_round_trip(m.to_square as int);
    assert(t.subrange(0, 2) =~= coord_text(m.from_square as int));
    assert(t.subrange(2, 4) =~= coord_text(m.to_square as int));
}

/// A piece's letter names the piece again, for either side.
pub proof fn lemma_piece_letter_round_trip(p: PieceType, side: Color)
    ensures
        piece_of_char(p.spec_char()) == Some(p),
        piece_of_char(p.spec_char_for(side)) == Some(p),
{
}

/// A piece's bitboard index gives back the piece, for either side.
pub proof fn lemma_piece_index_round_trip(p: PieceType, side: Color)
    ensures
        PieceType::spec_from_index(p.spec_index() as int) == p,
        PieceType::spec_from_index(side.spec_offset() + p.spec_index()) == p,
{
}

} // verus!
