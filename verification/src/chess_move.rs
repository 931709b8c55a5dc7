//! A chess move together with the bookkeeping needed to undo it.
use vstd::prelude::*;
use vstd::std_specs::cmp::PartialEqSpecImpl;
use crate::castle_sides::CastleSides;
use crate::helpers::{square_to_coord, str_coord_to_square, coord_text, parse_coord, coord_error};
use crate::piece_type::{PieceType, piece_of_char, piece_error};
use crate::text::{push_char, decimal, utf8_len, byte_len, ascii_text, lemma_utf8_len};

verus! {

#[derive(Copy, Clone, Debug)]
pub struct Move {
    pub from_square: usize,
    pub from_piece_type: Option<PieceType>,
    pub to_square: usize,
    /// The captured piece, if any.
    pub to_piece_type: Option<PieceType>,
    /// En-passant target before the move (restored on unmake).
    pub last_en_passant_target_coord: Option<usize>,
    /// En-passant target created by the move (a double pawn push).
    pub next_en_passant_target_coord: Option<usize>,
    pub is_en_passant_capture: bool,
    pub pawn_promoting_to: Option<PieceType>,
    pub castle_side: Option<CastleSides>,
    /// Whether the move gives check; filled in by legal move generation.
    pub is_check: Option<bool>,
    pub removes_white_castling_rights_short: Option<bool>,
    pub removes_white_castling_rights_long: Option<bool>,
    pub removes_black_castling_rights_short: Option<bool>,
    pub removes_black_castling_rights_long: Option<bool>,
}

/// A bare move between two squares with every other field empty.
pub open spec fn spec_new_move(from_square: usize, to_square: usize) -> Move {
    Move {
        from_square,
        from_piece_type: None,
        to_square,
        to_piece_type: None,
        last_en_passant_target_coord: None,
        next_en_passant_target_coord: None,
        is_en_passant_capture: false,
        pawn_promoting_to: None,
        castle_side: None,
        is_check: None,
        removes_white_castling_rights_short: None,
        removes_white_castling_rights_long: None,
        removes_black_castling_rights_short: None,
        removes_black_castling_rights_long: None,
    }
}

/// Text of a move in coordinate notation, e.g. "e2e4" or "e7e8q".
pub open spec fn move_text(m: Move) -> Seq<char> {
    coord_text(m.from_square as int) + coord_text(m.to_square as int) + match m.pawn_promoting_to {
        Some(t) => seq![t.spec_char()],
        None => Seq::<char>::empty(),
    }
}

/// The move named by coordinate notation, if the text is one.
/// The message reading text `t` as a move fails with: a length in bytes
/// other than 4 or 5, else
/// the error of the source square, else of the destination square, else of
/// the promotion letter.
pub open spec fn move_error(t: Seq<char>) -> Seq<char> {
    if !(utf8_len(t) == 4 || utf8_len(t) == 5) {
        "Invalid input detected. Expected 4 or 5 chars. Got: `"@ + decimal(utf8_len(t)) + "`."@
    } else if parse_coord(t.subrange(0, 2)) is None {
        coord_error(t.subrange(0, 2))
    } else if parse_coord(t.subrange(2, 4)) is None {
        coord_error(t.subrange(2, 4))
    } else {
        piece_error(t[4])
    }
}

/// A text with a character outside ASCII names no move.
pub proof fn lemma_non_ascii_no_move(t: Seq<char>)
    requires
        !ascii_text(t),
    ensures
        parse_move(t) is None,
{
    let i = choose|i: int| 0 <= i < t.len() && !((#[trigger] t[i] as u32) < 0x80);
    if t.len() == 4 || t.len() == 5 {
        if i < 2 {
            assert(t.subrange(0, 2)[i] == t[i]);
        } else if i < 4 {
            assert(t.subrange(2, 4)[i - 2] == t[i]);
        }
    }
}

pub open spec fn parse_move(t: Seq<char>) -> Option<Move> {
    if (t.len() == 4 || t.len() == 5) && parse_coord(t.subrange(0, 2)) is Some && parse_coord(
        t.subrange(2, 4),
    ) is Some && (t.len() == 5 ==> piece_of_char(t[4]) is Some) {
        let m = spec_new_move(parse_coord(t.subrange(0, 2))->0, parse_coord(t.subrange(2, 4))->0);
        Some(
            Move {
                pawn_promoting_to: if t.len() == 5 {
                    piece_of_char(t[4])
                } else {
                    None
                },
                ..m
            },
        )
    }
    else {
        None
    }
}

/// Two moves are the same when they join the same squares with the same promotion.
pub open spec fn same_move(a: Move, b: Move) -> bool {
    a.from_square == b.from_square && a.to_square == b.to_square && a.pawn_promoting_to
        == b.pawn_promoting_to
}

impl Move {
    pub fn new(from_square: usize, to_square: usize) -> (r: Self)
        ensures
            r == spec_new_move(from_square, to_square),
    {
        Move {
            from_square,
            from_piece_type: None,
            to_square,
            to_piece_type: None,
            last_en_passant_target_coord: None,
            next_en_passant_target_coord: None,
            is_en_passant_capture: false,
            pawn_promoting_to: None,
            castle_side: None,
            removes_white_castling_rights_short: None,
            removes_white_castling_rights_long: None,
            removes_black_castling_rights_short: None,
            removes_black_castling_rights_long: None,
            is_check: None,
        }
    }

    /// Coordinate notation of the move, e.g. "e2e4" or "e7e8q".
    pub fn move_to_str(&self) -> (r: String)
        requires
            self.from_square < 72,
            self.to_square < 72,
        ensures
            r@ == move_text(*self),
    {
        let mut s = square_to_coord(self.from_square);
        let to = square_to_coord(self.to_square);
        s.append(to.as_str());
        match self.pawn_promoting_to {
            Some(t) => push_char(&mut s, t.to_char_side_agnostic()),
            None => {},
        }
        proof {
            assert(s@ =~= move_text(*self));
        }
        s
    }

    /// Parses coordinate notation ("e2e4", "e7e8q") into a bare move.
    pub fn str_to_move(text: &str) -> (r: Result<Move, String>)
        requires
            utf8_len(text@) == 4 || utf8_len(text@) == 5 ==> ascii_text(text@),
        ensures
            r is Ok <==> parse_move(text@) is Some,
            r matches Ok(m) ==> parse_move(text@) == Some(m) && m.from_square < 64 && m.to_square
                < 64,
            r matches Err(msg) ==> msg@ == move_error(text@),
    {
        let n = byte_len(text);
        proof {
            lemma_utf8_len(text@);
            if !ascii_text(text@) {
                lemma_non_ascii_no_move(text@);
            }
        }
        if n != 4 && n != 5 {
            let mut msg = String::from_str("Invalid input detected. Expected 4 or 5 chars. Got: `");
            crate::text::push_decimal(&mut msg, n);
            msg.append("`.");
            return Err(msg);
        }
        let from_text = text.substring_char(0, 2);
        let to_text = text.substring_char(2, 4);
        let from = match str_coord_to_square(from_text) {
            Ok(c) => c,
            Err(msg) => return Err(msg),
        };
        let to = match str_coord_to_square(to_text) {
            Ok(c) => c,
            Err(msg) => return Err(msg),
        };
        let mut pawn_promoting_to: Option<PieceType> = None;
        if n == 5 {
            let promotion_char: char = text.get_char(4);
            match PieceType::char_to_piece_type(promotion_char) {
                Ok(t) => pawn_promoting_to = Some(t),
                Err(m) => return Err(m),
            };
        }
        let mut m = Move::new(from, to);
        m.pawn_promoting_to = pawn_promoting_to;
        Ok(m)
    }
}

impl PartialEq for Move {
    /// Moves compare equal when they join the same squares with the same
    /// promotion; the other fields are bookkeeping.
    fn eq(&self, other: &Self) -> (r: bool) {
        let promo_eq = match (self.pawn_promoting_to, other.pawn_promoting_to) {
            (None, None) => true,
            (Some(a), Some(b)) => a == b,
            _ => false,
        };
        self.from_square == other.from_square && self.to_square == other.to_square && promo_eq
    }
}

impl PartialEqSpecImpl for Move {
    open spec fn obeys_eq_spec() -> bool {
        true
    }

    open spec fn eq_spec(&self, other: &Move) -> bool {
        same_move(*self, *other)
    }
}

} // verus!
