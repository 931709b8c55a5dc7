//! The six kinds of pieces.
use vstd::prelude::*;
use crate::color::Color;
use crate::constants;
use crate::text::{spec_lower, to_lower, push_char};

verus! {

#[derive(Copy, Clone, PartialEq, Eq, Debug, Structural)]
pub enum PieceType {
    King,
    Queen,
    Rook,
    Bishop,
    Knight,
    Pawn,
}

/// The piece named by a FEN letter, ignoring case.
pub open spec fn piece_of_char(c: char) -> Option<PieceType> {
    let l = spec_lower(c);
    if l == 'k' {
        Some(PieceType::King)
    } else if l == 'q' {
        Some(PieceType::Queen)
    } else if l == 'r' {
        Some(PieceType::Rook)
    } else if l == 'b' {
        Some(PieceType::Bishop)
    } else if l == 'n' {
        Some(PieceType::Knight)
    } else if l == 'p' {
        Some(PieceType::Pawn)
    } else {
        None
    }
}

/// The message reading `c` as a piece letter fails with.
pub open spec fn piece_error(c: char) -> Seq<char> {
    "Unexpected character. Cannot convert character `"@.push(c) + "` to piece type."@
}

/// The square of the same file on the mirrored rank.
pub open spec fn mirror_rank(square: int) -> int {
    (7 - square / 8) * 8 + square % 8
}

impl PieceType {
    pub open spec fn spec_base_value(&self) -> i64 {
        match self {
            PieceType::King => 0,
            PieceType::Queen => 900,
            PieceType::Rook => 500,
            PieceType::Bishop => 320,
            PieceType::Knight => 300,
            PieceType::Pawn => 100,
        }
    }

    pub open spec fn spec_happy_square_value(&self, square: int, is_white_piece: bool) -> i64 {
        match self {
            PieceType::King => constants::KING_HAPPY_SQUARES_NON_ENDGAME@[square],
            PieceType::Queen => constants::QUEEN_HAPPY_SQUARES@[square],
            PieceType::Rook => constants::ROOK_HAPPY_SQUARES@[square],
            PieceType::Bishop => constants::BISHOP_HAPPY_SQUARES@[square],
            PieceType::Knight => constants::KNIGHT_HAPPY_SQUARES@[square],
            PieceType::Pawn => if is_white_piece {
                constants::PAWN_HAPPY_SQUARES@[square]
            } else {
                constants::PAWN_HAPPY_SQUARES@[mirror_rank(square)]
            },
        }
    }

    pub open spec fn spec_char(&self) -> char {
        match self {
            PieceType::King => 'k',
            PieceType::Queen => 'q',
            PieceType::Rook => 'r',
            PieceType::Bishop => 'b',
            PieceType::Knight => 'n',
            PieceType::Pawn => 'p',
        }
    }

    /// FEN letter: upper case for white, lower case for black.
    pub open spec fn spec_char_for(&self, side: Color) -> char {
        match side {
            Color::White => ((self.spec_char() as u32) - 32) as char,
            Color::Black => self.spec_char(),
        }
    }

    /// Index of this piece among a side's six bitboards.
    pub open spec fn spec_index(&self) -> usize {
        match self {
            PieceType::Pawn => 0,
            PieceType::Bishop => 1,
            PieceType::Knight => 2,
            PieceType::Rook => 3,
            PieceType::Queen => 4,
            PieceType::King => 5,
        }
    }

    /// The piece stored at bitboard index `i` (of either side).
    pub open spec fn spec_from_index(i: int) -> PieceType {
        let k = i % 6;
        if k == 0 {
            PieceType::Pawn
        } else if k == 1 {
            PieceType::Bishop
        } else if k == 2 {
            PieceType::Knight
        } else if k == 3 {
            PieceType::Rook
        } else if k == 4 {
            PieceType::Queen
        } else {
            PieceType::King
        }
    }

    /// Material value in centipawns.
    pub fn piece_base_value(&self) -> (r: i64)
        ensures
            r == self.spec_base_value(),
    {
        match self {
            PieceType::King => 0,
            PieceType::Queen => 900,
            PieceType::Rook => 500,
            PieceType::Bishop => 320,
            PieceType::Knight => 300,
            PieceType::Pawn => 100,
        }
    }

    /// Positional bonus of this piece on `square`; pawn tables are mirrored
    /// for black.
    pub fn piece_happy_square_value(&self, square: usize, is_white_piece: bool) -> (r: i64)
        requires
            square < 64,
        ensures
            r == self.spec_happy_square_value(square as int, is_white_piece),
    {
        match self {
            PieceType::King => constants::KING_HAPPY_SQUARES_NON_ENDGAME[square],
            PieceType::Queen => constants::QUEEN_HAPPY_SQUARES[square],
            PieceType::Rook => constants::ROOK_HAPPY_SQUARES[square],
            PieceType::Bishop => constants::BISHOP_HAPPY_SQUARES[square],
            PieceType::Knight => constants::KNIGHT_HAPPY_SQUARES[square],
            PieceType::Pawn => {
                if is_white_piece {
                    constants::PAWN_HAPPY_SQUARES[square]
                } else {
                    let rank: usize = 7 - (square / 8);
                    let file_number: usize = square % 8;
                    let new_square: usize = rank * 8 + file_number;
                    constants::PAWN_HAPPY_SQUARES[new_square]
                }
            },
        }
    }

    /// Lower-case letter of the piece.
    #[verifier::when_used_as_spec(spec_char)]
    pub fn to_char_side_agnostic(&self) -> (r: char)
        ensures
            r == self.spec_char(),
    {
        match self {
            PieceType::King => 'k',
            PieceType::Queen => 'q',
            PieceType::Rook => 'r',
            PieceType::Bishop => 'b',
            PieceType::Knight => 'n',
            PieceType::Pawn => 'p',
        }
    }

    /// FEN letter of the piece for the given side.
    pub fn to_char(&self, side: Color) -> (r: char)
        ensures
            r == self.spec_char_for(side),
    {
        let c = self.to_char_side_agnostic();
        match side {
            Color::White => ((c as u8) - 32) as char,
            Color::Black => c,
        }
    }

    /// Piece named by a letter (either case).
    pub fn char_to_piece_type(c: char) -> (r: Result<PieceType, String>)
        ensures
            r is Ok <==> piece_of_char(c) is Some,
            r matches Ok(t) ==> piece_of_char(c) == Some(t),
            r matches Err(m) ==> m@ == piece_error(c),
    {
        let l = to_lower(c);
        if l == 'k' {
            Ok(PieceType::King)
        } else if l == 'q' {
            Ok(PieceType::Queen)
        } else if l == 'r' {
            Ok(PieceType::Rook)
        } else if l == 'b' {
            Ok(PieceType::Bishop)
        } else if l == 'n' {
            Ok(PieceType::Knight)
        } else if l == 'p' {
            Ok(PieceType::Pawn)
        } else {
            let mut msg = String::from_str("Unexpected character. Cannot convert character `");
            push_char(&mut msg, c);
            msg.append("` to piece type.");
            Err(msg)
        }
    }

    /// Index of this piece among a side's six bitboards.
    #[verifier::when_used_as_spec(spec_index)]
    pub fn bitboard_index(&self) -> (r: usize)
        ensures
            r == self.spec_index(),
            r < 6,
    {
        match self {
            PieceType::Pawn => 0,
            PieceType::Bishop => 1,
            PieceType::Knight => 2,
            PieceType::Rook => 3,
            PieceType::Queen => 4,
            PieceType::King => 5,
        }
    }

    /// The piece stored at bitboard index `i` (of either side).
    pub fn bitboard_index_to_piece_type(i: usize) -> (r: Self)
        ensures
            r == Self::spec_from_index(i as int),
            r.spec_index() == i % 6,
    {
        let k = i % 6;
        if k == 0 {
            PieceType::Pawn
        } else if k == 1 {
            PieceType::Bishop
        } else if k == 2 {
            PieceType::Knight
        } else if k == 3 {
            PieceType::Rook
        } else if k == 4 {
            PieceType::Queen
        } else {
            PieceType::King
        }
    }
}

} // verus!
