//! Bit manipulation on 64-square bitboards, and square/coordinate text.
use vstd::prelude::*;
use vstd::std_specs::bits::{u64_trailing_zeros, axiom_u64_trailing_zeros};
use crate::text::{push_char, push_decimal, spec_lower, to_lower, decimal, utf8_len, byte_len, ascii_text, lemma_utf8_len};

verus! {

/// Whether square `sq` (0 = a8, 63 = h1) is set in bitboard `bb`.
pub open spec fn has_bit(bb: u64, sq: int) -> bool {
    0 <= sq < 64 && (bb >> (sq as u64)) & 1u64 == 1u64
}

/// Number of set bits of a bitboard.
pub open spec fn popcount(bb: u64) -> nat
    decreases bb,
{
    if bb == 0 {
        0
    } else {
        proof {
            lemma_shr1_lt(bb);
        }
        (bb & 1u64) as nat + popcount(bb >> 1u64)
    }
}

/// Index of the least significant set bit (64 for the empty board).
pub open spec fn lsb(bb: u64) -> nat {
    u64_trailing_zeros(bb) as nat
}

/// The bitboard with its least significant set bit cleared.
pub open spec fn clear_lsb(bb: u64) -> u64 {
    bb & ((bb - 1u64) as u64)
}

/// The set squares of a bitboard, in ascending order.
pub open spec fn squares_of(bb: u64) -> Seq<usize>
    decreases bb,
{
    if bb == 0 {
        seq![]
    } else {
        proof {
            lemma_clear_lsb_lt(bb);
        }
        seq![lsb(bb) as usize] + squares_of(clear_lsb(bb))
    }
}

pub proof fn lemma_shr1_lt(bb: u64)
    requires
        bb != 0,
    ensures
        bb >> 1u64 < bb,
{
    assert(bb != 0 ==> bb >> 1u64 < bb) by (bit_vector);
}

pub proof fn lemma_clear_lsb_lt(bb: u64)
    requires
        bb != 0,
    ensures
        clear_lsb(bb) < bb,
{
    assert(bb != 0 ==> bb & ((bb - 1u64) as u64) < bb) by (bit_vector);
}

/// The least significant set bit of a non-empty board is set, and clearing
/// it is the same as removing that single square.
pub proof fn lemma_lsb(bb: u64)
    requires
        bb != 0,
    ensures
        lsb(bb) < 64,
        has_bit(bb, lsb(bb) as int),
        forall|j: int| 0 <= j < lsb(bb) ==> !has_bit(bb, j),
        clear_lsb(bb) == bb & !(1u64 << (lsb(bb) as u64)),
        clear_lsb(bb) == bb ^ (1u64 << (lsb(bb) as u64)),
        bb & ((!bb + 1u64) as u64) == 1u64 << (lsb(bb) as u64),
{
    axiom_u64_trailing_zeros(bb);
    let t = u64_trailing_zeros(bb) as u64;
    assert forall|j: int| 0 <= j < lsb(bb) implies !has_bit(bb, j) by {
        let jj = j as u64;
        assert((bb >> jj) & 1u64 == 0u64);
    }
    assert(t < 64 && (bb >> t) & 1u64 == 1u64 && bb << ((64u64 - t) as u64) == 0u64 ==> bb & ((bb - 1u64) as u64) == bb & !(1u64 << t)) by (bit_vector);
    assert(t < 64 && (bb >> t) & 1u64 == 1u64 && bb << ((64u64 - t) as u64) == 0u64 ==> bb & ((bb - 1u64) as u64) == bb ^ (1u64 << t)) by (bit_vector);
    assert(t < 64 && (bb >> t) & 1u64 == 1u64 && bb << ((64u64 - t) as u64) == 0u64 ==> bb & ((!bb + 1u64) as u64) == 1u64 << t) by (bit_vector);
}

/// Counting bits by shifting agrees with counting by clearing the lowest bit.
pub proof fn lemma_popcount_clear_lsb(bb: u64)
    requires
        bb != 0,
    ensures
        popcount(bb) == 1 + popcount(clear_lsb(bb)),
    decreases bb,
{
    lemma_shr1_lt(bb);
    let c = clear_lsb(bb);
    if bb & 1u64 == 1u64 {
        assert(bb & 1u64 == 1u64 ==> bb & ((bb - 1u64) as u64) == bb ^ 1u64) by (bit_vector);
        assert(bb & 1u64 == 1u64 ==> (bb ^ 1u64) & 1u64 == 0u64 && (bb ^ 1u64) >> 1u64 == bb
            >> 1u64) by (bit_vector);
        assert((bb ^ 1u64) == 0u64 ==> bb >> 1u64 == 0u64) by (bit_vector);
        if c != 0 {
            lemma_shr1_lt(c);
            assert(popcount(c) == (c & 1u64) as nat + popcount(c >> 1u64));
        }
        assert(popcount(c) == popcount(bb >> 1u64));
    } else {
        let h = bb >> 1u64;
        assert(bb & 1u64 != 1u64 ==> bb & 1u64 == 0u64) by (bit_vector);
        assert(bb != 0 && bb & 1u64 == 0u64 ==> (bb >> 1u64) != 0) by (bit_vector);
        lemma_popcount_clear_lsb(h);
        assert(bb & 1u64 == 0u64 ==> (bb & ((bb - 1u64) as u64)) & 1u64 == 0u64 && (bb & ((bb
            - 1u64) as u64)) >> 1u64 == (bb >> 1u64) & ((((bb >> 1u64) - 1u64) as u64)))
            by (bit_vector);
        if c != 0 {
            lemma_shr1_lt(c);
            assert(popcount(c) == (c & 1u64) as nat + popcount(c >> 1u64));
        } else {
            assert(c == 0u64 ==> c >> 1u64 == 0u64) by (bit_vector);
        }
        assert(popcount(c) == popcount(clear_lsb(h)));
    }
}

/// A board of the `n` lowest squares has `n` bits.
pub proof fn lemma_popcount_low_mask(n: u64)
    requires
        n <= 64,
    ensures
        n < 64 ==> popcount((((1u64 << n) - 1u64) as u64)) == n,
    decreases n,
{
    if n > 0 && n < 64 {
        let m = (((1u64 << n) - 1u64) as u64);
        assert(0 < n && n < 64 ==> (((1u64 << n) - 1u64) as u64) != 0 && (((1u64 << n) - 1u64) as u64) & 1u64
            == 1u64 && (((1u64 << n) - 1u64) as u64) >> 1u64 == (((1u64 << ((n - 1u64) as u64)) - 1u64) as u64))
            by (bit_vector);
        lemma_popcount_low_mask((n - 1) as u64);
        lemma_shr1_lt(m);
    } else if n == 0 {
        assert((((1u64 << 0u64) - 1u64) as u64) == 0) by (bit_vector);
    }
}

/// The bit of `square` in `bitboard`, as a board (0 when clear).
pub fn get_bit(bitboard: u64, square: usize) -> (r: u64)
    requires
        square < 64,
    ensures
        r == bitboard & (1u64 << (square as u64)),
        (r != 0) == has_bit(bitboard, square as int),
{
    let s = square as u64;
    assert(s < 64 ==> ((bitboard & (1u64 << s)) != 0) == ((bitboard >> s) & 1u64 == 1u64))
        by (bit_vector);
    bitboard & (1u64 << s)
}

/// `bitboard` with `square` added.
pub fn set_bit(bitboard: u64, square: usize) -> (r: u64)
    requires
        square < 64,
    ensures
        r == bitboard | (1u64 << (square as u64)),
        forall|i: int| #[trigger] has_bit(r, i) == (i == square || has_bit(bitboard, i)),
{
    let s = square as u64;
    proof {
        assert forall|i: int| #[trigger] has_bit(bitboard | (1u64 << s), i) == (i == square
            || has_bit(bitboard, i)) by {
            if 0 <= i < 64 {
                let ii = i as u64;
                assert(s < 64 && ii < 64 ==> (((bitboard | (1u64 << s)) >> ii) & 1u64 == 1u64)
                    == (ii == s || (bitboard >> ii) & 1u64 == 1u64)) by (bit_vector);
            }
        }
    }
    bitboard | (1u64 << s)
}

/// `bitboard` with `square` removed.
pub fn pop_bit(bitboard: u64, square: usize) -> (r: u64)
    requires
        square < 64,
    ensures
        r == bitboard & !(1u64 << (square as u64)),
        forall|i: int| #[trigger] has_bit(r, i) == (i != square && has_bit(bitboard, i)),
{
    let s = square as u64;
    proof {
        assert(s < 64 ==> (if bitboard & (1u64 << s) != 0 {
            bitboard ^ (1u64 << s)
        } else {
            bitboard
        }) == bitboard & !(1u64 << s)) by (bit_vector);
        assert forall|i: int| #[trigger] has_bit(bitboard & !(1u64 << s), i) == (i != square
            && has_bit(bitboard, i)) by {
            if 0 <= i < 64 {
                let ii = i as u64;
                assert(s < 64 && ii < 64 ==> (((bitboard & !(1u64 << s)) >> ii) & 1u64 == 1u64)
                    == (ii != s && (bitboard >> ii) & 1u64 == 1u64)) by (bit_vector);
            }
        }
    }
    if get_bit(bitboard, square) != 0 {
        bitboard ^ (1u64 << s)
    } else {
        bitboard
    }
}

/// Number of squares set in `bitboard`.
pub fn count_bits(bitboard: u64) -> (r: usize)
    ensures
        r == popcount(bitboard),
{
    let mut bb = bitboard;
    let mut bit_count: usize = 0;
    proof {
        lemma_popcount_bound(bitboard);
    }
    while bb != 0
        invariant
            bit_count + popcount(bb) == popcount(bitboard),
            popcount(bitboard) <= 64,
        decreases bb,
    {
        proof {
            lemma_popcount_clear_lsb(bb);
            lemma_clear_lsb_lt(bb);
        }
        bit_count += 1;
        bb &= bb - 1;
    }
    bit_count
}

/// A bitboard never has more than 64 bits.
pub proof fn lemma_popcount_bound(bb: u64)
    ensures
        popcount(bb) <= 64,
{
    lemma_popcount_bound_shift(bb, 64);
}

proof fn lemma_popcount_bound_shift(bb: u64, n: nat)
    requires
        n <= 64,
        n < 64 ==> bb >> (n as u64) == 0,
    ensures
        popcount(bb) <= n,
    decreases n,
{
    if bb != 0 {
        lemma_shr1_lt(bb);
        assert(n > 0) by {
            if n == 0 {
                assert(bb >> 0u64 == bb) by (bit_vector);
            }
        }
        let nn = (n - 1) as u64;
        assert(nn < 63 && bb >> ((nn + 1u64) as u64) == 0 ==> (bb >> 1u64) >> nn == 0) by (bit_vector);
        assert((bb >> 1u64) >> 63u64 == 0) by (bit_vector);
        lemma_popcount_bound_shift(bb >> 1u64, (n - 1) as nat);
        assert(bb & 1u64 <= 1u64) by (bit_vector);
    }
}

/// Index of the least significant set square, or `None` for an empty board.
pub fn get_lsb_index(bitboard: u64) -> (r: Option<usize>)
    ensures
        bitboard == 0 ==> r is None,
        bitboard != 0 ==> r == Some(lsb(bitboard) as usize),
{
    if bitboard == 0 {
        return None;
    }
    proof {
        lemma_lsb(bitboard);
        assert(bitboard != 0 ==> !bitboard < 0xffff_ffff_ffff_ffffu64) by (bit_vector);
    }
    let lsb_board = bitboard & (!bitboard + 1);
    proof {
        let t = lsb(bitboard) as u64;
        assert(t < 64 ==> 1u64 << t >= 1) by (bit_vector);
    }
    let populated = lsb_board - 1;
    proof {
        lemma_popcount_low_mask(lsb(bitboard) as u64);
    }
    Some(count_bits(populated))
}


/// Algebraic name of a square: file letter then rank digit (square 0 is "a8").
pub open spec fn coord_text(square: int) -> Seq<char> {
    seq![(97 + square % 8) as char, (48 + 8 - square / 8) as char]
}

/// File (0 = a) named by a coordinate letter, if any; upper case is accepted.
pub open spec fn file_of_char(c: char) -> Option<int> {
    let l = spec_lower(c);
    if 'a' <= l <= 'h' {
        Some(l as int - 97)
    } else {
        None
    }
}

/// Rank number (1..=8) named by a digit character, if any.
pub open spec fn rank_of_char(c: char) -> Option<int> {
    if '1' <= c <= '8' {
        Some(c as int - 48)
    } else {
        None
    }
}

/// The square named by a two-character coordinate such as "e4".
pub open spec fn parse_coord(t: Seq<char>) -> Option<usize> {
    if t.len() == 2 && file_of_char(t[0]) is Some && rank_of_char(t[1]) is Some {
        Some(((8 - rank_of_char(t[1])->0) * 8 + file_of_char(t[0])->0) as usize)
    } else {
        None
    }
}

/// A parsed square is on the board.
pub proof fn lemma_parse_coord_on_board(t: Seq<char>)
    ensures
        parse_coord(t) matches Some(sq) ==> sq < 64,
{
}

/// The coordinate name of a square ("a8" for square 0).
pub fn square_to_coord(square: usize) -> (r: String)
    requires
        square < 72,
    ensures
        r@ == coord_text(square as int),
{
    let rank = 8 - (square / 8);
    let file_number = square % 8;
    let file_char = (97u8 + file_number as u8) as char;
    let mut s = String::new();
    push_char(&mut s, file_char);
    push_char(&mut s, (48u8 + rank as u8) as char);
    proof {
        assert(s@ =~= coord_text(square as int));
    }
    s
}

/// A string of `depth` tab characters.
pub fn debug_depth_to_tabs(depth: u32) -> (r: String)
    ensures
        r@ == Seq::new(depth as nat, |i: int| '\t'),
{
    let mut result = String::new();
    let mut d = depth;
    while d > 0
        invariant
            d <= depth,
            result@ == Seq::new((depth - d) as nat, |i: int| '\t'),
        decreases d,
    {
        push_char(&mut result, '\t');
        d -= 1;
        proof {
            assert(result@ =~= Seq::new((depth - d) as nat, |i: int| '\t'));
        }
    }
    result
}

/// The message reading text `t` as a coordinate fails with: a length in
/// bytes other than 2, else a bad file letter, else a rank that is not a digit, else a
/// digit (0 or 9) naming no rank.
pub open spec fn coord_error(t: Seq<char>) -> Seq<char> {
    if utf8_len(t) != 2 {
        "Invalid input detected. Expected 2 chars. Got: `"@ + decimal(utf8_len(t)) + "`."@
    } else if file_of_char(t[0]) is None {
        "Invalid file letter: "@.push(spec_lower(t[0]))
    } else if !('0' <= t[1] <= '9') {
        "Unable to convert `"@.push(t[1]) + "` to a digit."@
    } else {
        "Invalid rank digit: "@.push(t[1])
    }
}

/// Parses a coordinate such as "e4" into a square index (a8 = 0, h1 = 63).
/// Fails unless the text is exactly a file letter a-h (either case) followed
/// by a rank digit 1-8. A text of two bytes that is a single character is
/// not accepted (its second character would be missing).
pub fn str_coord_to_square(s: &str) -> (r: Result<usize, String>)
    requires
        utf8_len(s@) == 2 ==> s@.len() == 2,
    ensures
        r is Ok <==> parse_coord(s@) is Some,
        r matches Ok(sq) ==> parse_coord(s@) == Some(sq) && sq < 64,
        r matches Err(m) ==> m@ == coord_error(s@),
{
    let n = byte_len(s);
    if n != 2 {
        proof {
            lemma_utf8_len(s@);
            if s@.len() == 2 {
                assert(!ascii_text(s@));
                let i = choose|i: int| 0 <= i < 2 && !((#[trigger] s@[i] as u32) < 0x80);
                assert(parse_coord(s@) is None);
            }
        }
        let mut msg = String::from_str("Invalid input detected. Expected 2 chars. Got: `");
        push_decimal(&mut msg, n);
        msg.append("`.");
        return Err(msg);
    }
    let file_c = to_lower(s.get_char(0));
    let rank_c = s.get_char(1);
    if !('a' <= file_c && file_c <= 'h') {
        let mut msg = String::from_str("Invalid file letter: ");
        push_char(&mut msg, file_c);
        return Err(msg);
    }
    if !('0' <= rank_c && rank_c <= '9') {
        let mut msg = String::from_str("Unable to convert `");
        push_char(&mut msg, rank_c);
        msg.append("` to a digit.");
        return Err(msg);
    }
    if !('1' <= rank_c && rank_c <= '8') {
        let mut msg = String::from_str("Invalid rank digit: ");
        push_char(&mut msg, rank_c);
        return Err(msg);
    }
    let file = (file_c as u8 - 97u8) as usize;
    let rank = (rank_c as u8 - 48u8) as usize;
    Ok((8 - rank) * 8 + file)
}

} // verus!
