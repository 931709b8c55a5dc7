//! Board coordinates as (file, rank-from-top) pairs.
use vstd::prelude::*;
use crate::helpers::{file_of_char, rank_of_char};
use crate::text::{push_char, push_decimal, to_lower, spec_lower, decimal, utf8_len, byte_len, ascii_text, lemma_utf8_len};

verus! {

/// A square by file `x` (0 = a) and row `y` (0 = rank 8).
#[derive(Debug, Copy, Clone, PartialEq, Eq, Structural)]
pub struct Coord {
    pub x: usize,
    pub y: usize,
}

/// The coordinate named by two characters such as "e4".
pub open spec fn parse_coord_xy(t: Seq<char>) -> Option<Coord> {
    if t.len() == 2 && file_of_char(t[0]) is Some && rank_of_char(t[1]) is Some {
        Some(Coord { x: file_of_char(t[0])->0 as usize, y: (8 - rank_of_char(t[1])->0) as usize })
    } else {
        None
    }
}

/// The message reading `t` as a coordinate fails with: a length in bytes
/// other than 2, else a bad file letter, else a rank that is not a digit, else a digit
/// off the board.
pub open spec fn coord_xy_error(t: Seq<char>) -> Seq<char> {
    if utf8_len(t) != 2 {
        "Invalid input detected. Expected 2 chars. Got: `"@ + decimal(utf8_len(t)) + "`."@
    } else if file_of_char(t[0]) is None {
        "Invalid file letter: "@.push(spec_lower(t[0]))
    } else if !('0' <= t[1] <= '9') {
        "Unable to convert `"@.push(t[1]) + "` to a digit."@
    } else {
        "Digit referenced `"@.push(t[1]) + "` is outside board size 8."@
    }
}

impl Coord {
    /// Parses a coordinate such as "e4" (x = 4, y = 4).
    pub fn str_to_coord(s: &str) -> (r: Result<Coord, String>)
        requires
            utf8_len(s@) == 2 ==> s@.len() == 2,
        ensures
            r is Ok <==> parse_coord_xy(s@) is Some,
            r matches Ok(c) ==> parse_coord_xy(s@) == Some(c) && c.x < 8 && c.y < 8,
            r matches Err(m) ==> m@ == coord_xy_error(s@),
    {
        let n = byte_len(s);
        if n != 2 {
            proof {
                lemma_utf8_len(s@);
                if s@.len() == 2 {
                    assert(!ascii_text(s@));
                    let i = choose|i: int| 0 <= i < 2 && !((#[trigger] s@[i] as u32) < 0x80);
                    assert(parse_coord_xy(s@) is None);
                }
            }
            let mut msg = String::from_str("Invalid input detected. Expected 2 chars. Got: `");
            push_decimal(&mut msg, n);
            msg.append("`.");
            return Err(msg);
        }
        let file_letter = to_lower(s.get_char(0));
        let rank_number = s.get_char(1);
        if !('a' <= file_letter && file_letter <= 'h') {
            let mut msg = String::from_str("Invalid file letter: ");
            push_char(&mut msg, file_letter);
            return Err(msg);
        }
        if !('0' <= rank_number && rank_number <= '9') {
            let mut msg = String::from_str("Unable to convert `");
            push_char(&mut msg, rank_number);
            msg.append("` to a digit.");
            return Err(msg);
        }
        if !('1' <= rank_number && rank_number <= '8') {
            let mut msg = String::from_str("Digit referenced `");
            push_char(&mut msg, rank_number);
            msg.append("` is outside board size 8.");
            return Err(msg);
        }
        let x = (file_letter as u8 - 97u8) as usize;
        let y = 8 - (rank_number as u8 - 48u8) as usize;
        Ok(Coord { x, y })
    }

    /// The coordinate's name: the file letter (`a` plus `x`, as a byte)
    /// followed by the rank number `8 - y`.
    pub fn coord_str(&self) -> (r: String)
        requires
            self.x % 256 <= 158,
            self.y <= 8,
        ensures
            r@ == seq![(97 + self.x % 256) as char] + decimal((8 - self.y) as nat),
    {
        let file = (97u8 + (self.x % 256) as u8) as char;
        let mut s = String::new();
        push_char(&mut s, file);
        push_decimal(&mut s, 8 - self.y);
        proof {
            assert(s@ =~= seq![(97 + self.x % 256) as char] + decimal((8 - self.y) as nat));
        }
        s
    }
}

} // verus!
