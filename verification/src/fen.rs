//! Reading a position from Forsyth-Edwards Notation (FEN).
use vstd::prelude::*;
use crate::chess_game::ChessGame;
use crate::color::Color;
use crate::helpers::{parse_coord, str_coord_to_square, coord_text, square_to_coord};
use crate::piece_type::{PieceType, piece_of_char};
use crate::position::setb;
use crate::runtime_calculated_constants::Constants;
use crate::text::{push_char, push_decimal, spec_lower, to_lower, decimal, utf8_len, byte_len};

verus! {

/// Whether `c` is white space in the sense of Unicode (what `str::trim`
/// removes).
pub open spec fn is_white_space(c: char) -> bool {
    ('\u{9}' <= c <= '\u{d}') || c == ' ' || c == '\u{85}' || c == '\u{a0}' || c == '\u{1680}'
        || ('\u{2000}' <= c <= '\u{200a}') || c == '\u{2028}' || c == '\u{2029}' || c == '\u{202f}'
        || c == '\u{205f}' || c == '\u{3000}'
}

/// Whether `c` is white space.
fn white_space(c: char) -> (r: bool)
    ensures
        r == is_white_space(c),
{
    ('\u{9}' <= c && c <= '\u{d}') || c == ' ' || c == '\u{85}' || c == '\u{a0}' || c == '\u{1680}'
        || ('\u{2000}' <= c && c <= '\u{200a}') || c == '\u{2028}' || c == '\u{2029}' || c
        == '\u{202f}' || c == '\u{205f}' || c == '\u{3000}'
}

/// The first index from `i` on that is not white space.
pub open spec fn skip_space(t: Seq<char>, i: int) -> int
    decreases t.len() - i,
{
    if 0 <= i < t.len() && is_white_space(t[i]) {
        skip_space(t, i + 1)
    } else {
        i
    }
}

/// The end of the text before `j` once trailing white space after `lo` is
/// dropped.
pub open spec fn skip_space_back(t: Seq<char>, j: int, lo: int) -> int
    decreases j,
{
    if j > lo && j > 0 && is_white_space(t[j - 1]) {
        skip_space_back(t, j - 1, lo)
    } else {
        j
    }
}

/// The text without leading and trailing white space.
pub open spec fn trimmed(t: Seq<char>) -> Seq<char> {
    let lo = skip_space(t, 0);
    t.subrange(lo, skip_space_back(t, t.len() as int, lo))
}

/// The index of the first space from `i` on, or the length of the text.
pub open spec fn find_space(t: Seq<char>, i: int) -> int
    decreases t.len() - i,
{
    if i < 0 || i >= t.len() {
        t.len() as int
    } else if t[i] == ' ' {
        i
    } else {
        find_space(t, i + 1)
    }
}

/// The state of reading the board field: current rank row and file
/// column, an error code (0 while reading; 1 a bad count of empty squares,
/// 2 an unknown piece letter, 3 a row without 8 columns, 4 a piece placed
/// off the board), and the pieces placed so far.
pub struct BoardScan {
    pub y: int,
    pub x: int,
    pub code: int,
    pub pieces: Seq<(Color, PieceType, int)>,
}

/// Reading one character of the board field.
pub open spec fn scan_step(s: BoardScan, c: char) -> BoardScan {
    if s.code != 0 {
        s
    } else if c == '/' {
        if s.x != 8 {
            BoardScan { code: 3, ..s }
        } else {
            BoardScan { y: s.y + 1, x: 0, ..s }
        }
    } else if '0' <= c <= '9' {
        let n = c as int - 48;
        if n < 1 || n > 8 {
            BoardScan { code: 1, ..s }
        } else {
            BoardScan { x: s.x + n, ..s }
        }
    } else {
        match piece_of_char(c) {
            Some(p) => {
                let sq = s.y * 8 + s.x;
                if sq >= 64 {
                    BoardScan { code: 4, ..s }
                } else {
                    let side = if 'A' <= c <= 'Z' {
                        Color::White
                    } else {
                        Color::Black
                    };
                    BoardScan { x: s.x + 1, pieces: s.pieces.push((side, p, sq)), ..s }
                }
            },
            None => BoardScan { code: 2, ..s },
        }
    }
}

/// Reading the characters of `t` as a board field.
pub open spec fn scan_board(t: Seq<char>) -> BoardScan
    decreases t.len(),
{
    if t.len() == 0 {
        BoardScan { y: 0, x: 0, code: 0, pieces: seq![] }
    } else {
        scan_step(scan_board(t.drop_last()), t.last())
    }
}

/// The error code of a whole board field: a reading error, else 3 when the
/// last row does not have 8 columns, 5 when there are not 8 rows, 0 when the
/// board is well formed.
pub open spec fn board_code(t: Seq<char>) -> int {
    let s = scan_board(t);
    if s.code != 0 {
        s.code
    } else if s.x != 8 {
        3
    } else if s.y + 1 != 8 {
        5
    } else {
        0
    }
}

/// Piece and occupancy bitboards with `pieces` placed in order on an empty
/// board.
pub open spec fn placed(pieces: Seq<(Color, PieceType, int)>) -> (Seq<u64>, Seq<u64>)
    decreases pieces.len(),
{
    if pieces.len() == 0 {
        (Seq::new(12, |i: int| 0u64), Seq::new(3, |i: int| 0u64))
    } else {
        let (pb, occ) = placed(pieces.drop_last());
        let (side, p, sq) = pieces.last();
        let k = side.spec_offset() + p.spec_index();
        let o = side.spec_idx() as int;
        (pb.update(k, setb(pb[k], sq)), occ.update(o, setb(occ[o], sq)).update(2, setb(occ.update(o, setb(occ[o], sq))[2], sq)))
    }
}

/// The hash keys of `pieces`, combined.
pub open spec fn pieces_hash(k: &Constants, pieces: Seq<(Color, PieceType, int)>) -> u64
    decreases pieces.len(),
{
    if pieces.len() == 0 {
        0
    } else {
        let (side, p, sq) = pieces.last();
        pieces_hash(k, pieces.drop_last()) ^ k.zobrist_table@[side.spec_offset() + p.spec_index()]@[sq]
    }
}

/// The castling rights a castling field grants (white short, white long,
/// black short, black long) and their combined hash keys; other
/// characters are ignored.
pub open spec fn scan_castling(k: &Constants, t: Seq<char>) -> (bool, bool, bool, bool, u64)
    decreases t.len(),
{
    if t.len() == 0 {
        (false, false, false, false, 0)
    } else {
        let (ws, wl, bs, bl, h) = scan_castling(k, t.drop_last());
        let c = t.last();
        if c == 'K' {
            (true, wl, bs, bl, h ^ k.zobrist_castling_rights@[0])
        } else if c == 'Q' {
            (ws, true, bs, bl, h ^ k.zobrist_castling_rights@[1])
        } else if c == 'k' {
            (ws, wl, true, bl, h ^ k.zobrist_castling_rights@[2])
        } else if c == 'q' {
            (ws, wl, bs, true, h ^ k.zobrist_castling_rights@[3])
        } else {
            (ws, wl, bs, bl, h)
        }
    }
}

/// The fields of a FEN text (split at single spaces, after trimming): the
/// board, then optionally the side to move, castling rights and the
/// en-passant target, each given by its start and end.
pub open spec fn fen_board_end(t: Seq<char>) -> int {
    find_space(trimmed(t), 0)
}

pub open spec fn fen_turn_bounds(t: Seq<char>) -> (int, int) {
    let s = fen_board_end(t) + 1;
    (s, find_space(trimmed(t), s))
}

pub open spec fn fen_castling_bounds(t: Seq<char>) -> (int, int) {
    let s = fen_turn_bounds(t).1 + 1;
    (s, find_space(trimmed(t), s))
}

pub open spec fn fen_ep_bounds(t: Seq<char>) -> (int, int) {
    let s = fen_castling_bounds(t).1 + 1;
    (s, find_space(trimmed(t), s))
}

/// The side-to-move field names white ("w" or "W") or black ("b" or "B").
pub open spec fn turn_of(f: Seq<char>) -> Option<bool> {
    if f =~= seq!['w'] || f =~= seq!['W'] {
        Some(true)
    } else if f =~= seq!['b'] || f =~= seq!['B'] {
        Some(false)
    } else {
        None
    }
}

/// Whether reading the FEN text succeeds: a well-formed board, then a side
/// to move.
pub open spec fn fen_ok(t: Seq<char>) -> bool {
    let tt = trimmed(t);
    let (ts, te) = fen_turn_bounds(t);
    &&& board_code(tt.subrange(0, fen_board_end(t))) == 0
    &&& fen_board_end(t) < tt.len()
    &&& turn_of(tt.subrange(ts, te)) is Some
}

/// Reading the board of the FEN text never places a piece off the board.
pub open spec fn fen_board_on_board(t: Seq<char>) -> bool {
    scan_board(trimmed(t).subrange(0, fen_board_end(t))).code != 4
}

impl<'a> ChessGame<'a> {
    /// The position a successfully read FEN text describes, keeping the
    /// castling rights and en-passant target of `self` when the text stops
    /// before them.
    pub open spec fn fen_position(&self, t: Seq<char>) -> crate::position::Position {
        let k = self.bitboard_constants;
        let tt = trimmed(t);
        let scan = scan_board(tt.subrange(0, fen_board_end(t)));
        let (pb, occ) = placed(scan.pieces);
        let (ts, te) = fen_turn_bounds(t);
        let white = turn_of(tt.subrange(ts, te))->0;
        let h0 = pieces_hash(k, scan.pieces) ^ (if white { 0u64 } else { k.zobrist_to_move });
        let (cs, ce) = fen_castling_bounds(t);
        let has_castling = te < tt.len();
        let cast = scan_castling(k, tt.subrange(cs, ce));
        let (es, ee) = fen_ep_bounds(t);
        let has_ep = has_castling && ce < tt.len();
        let ep = parse_coord(tt.subrange(es, ee));
        crate::position::Position {
            pb: pb,
            occ: occ,
            white_to_move: white,
            can_white_castle_short: if has_castling { cast.0 } else { self.can_white_castle_short },
            can_white_castle_long: if has_castling { cast.1 } else { self.can_white_castle_long },
            can_black_castle_short: if has_castling { cast.2 } else { self.can_black_castle_short },
            can_black_castle_long: if has_castling { cast.3 } else { self.can_black_castle_long },
            en_passant_target: if has_ep { ep } else { self.en_passant_target },
            zobrist_hash: h0 ^ (if has_castling { cast.4 } else { 0u64 }) ^ (if has_ep && ep is Some {
                k.zobrist_en_passant@[(ep->0 % 8) as int]
            } else {
                0u64
            }),
        }
    }
}

/// The bounds of the text without its leading and trailing white space.
fn trim_bounds(s: &str) -> (r: (usize, usize))
    ensures
        r.0 == skip_space(s@, 0),
        r.1 == skip_space_back(s@, s@.len() as int, r.0 as int),
        r.0 <= r.1 <= s@.len(),
{
    let n = s.unicode_len();
    let mut lo: usize = 0;
    while lo < n && white_space(s.get_char(lo))
        invariant
            n == s@.len(),
            lo <= n,
            skip_space(s@, 0) == skip_space(s@, lo as int),
        decreases n - lo,
    {
        lo += 1;
    }
    let mut hi: usize = n;
    while hi > lo && white_space(s.get_char(hi - 1))
        invariant
            n == s@.len(),
            lo <= hi <= n,
            skip_space_back(s@, n as int, lo as int) == skip_space_back(s@, hi as int, lo as int),
        decreases hi,
    {
        hi -= 1;
    }
    (lo, hi)
}

/// The first space of `t` from `i` on is between `i` and the end.
pub proof fn lemma_find_space_bounds(t: Seq<char>, i: int)
    requires
        0 <= i <= t.len(),
    ensures
        i <= find_space(t, i) <= t.len(),
    decreases t.len() - i,
{
    if i < t.len() && t[i] != ' ' {
        lemma_find_space_bounds(t, i + 1);
    }
}

/// The index of the first space of `t` from `i` on, or its length.
pub fn find_space_from(t: &str, i: usize) -> (r: usize)
    requires
        i <= t@.len(),
    ensures
        r == find_space(t@, i as int),
        i <= r <= t@.len(),
{
    let n = t.unicode_len();
    let mut j = i;
    while j < n && t.get_char(j) != ' '
        invariant
            n == t@.len(),
            i <= j <= n,
            find_space(t@, i as int) == find_space(t@, j as int),
        decreases n - j,
    {
        j += 1;
    }
    j
}

/// Once reading the board fails, it stays failed with the same code.
pub proof fn lemma_scan_code_stays(t: Seq<char>, i: int, j: int)
    requires
        0 <= i <= j <= t.len(),
        scan_board(t.subrange(0, i)).code != 0,
    ensures
        scan_board(t.subrange(0, j)).code == scan_board(t.subrange(0, i)).code,
    decreases j - i,
{
    lemma_scan_state_stays(t, i, j);
}

/// Once reading the board fails, it stays failed, in the same state.
pub proof fn lemma_scan_state_stays(t: Seq<char>, i: int, j: int)
    requires
        0 <= i <= j <= t.len(),
        scan_board(t.subrange(0, i)).code != 0,
    ensures
        scan_board(t.subrange(0, j)) == scan_board(t.subrange(0, i)),
    decreases j - i,
{
    if i < j {
        lemma_scan_state_stays(t, i, j - 1);
        assert(t.subrange(0, j).drop_last() =~= t.subrange(0, j - 1));
    }
}

/// The index of the character at which reading the board field `t` failed
/// (meaningful when it failed).
pub open spec fn scan_stop(t: Seq<char>) -> int
    decreases t.len(),
{
    if t.len() == 0 {
        0
    } else if scan_board(t.drop_last()).code != 0 {
        scan_stop(t.drop_last())
    } else {
        t.len() - 1
    }
}

/// Reading failed at character `i` when it had not failed before it.
pub proof fn lemma_scan_stop(t: Seq<char>, i: int, j: int)
    requires
        0 <= i < j <= t.len(),
        scan_board(t.subrange(0, i)).code == 0,
        scan_board(t.subrange(0, i + 1)).code != 0,
    ensures
        scan_stop(t.subrange(0, j)) == i,
    decreases j - i,
{
    if j > i + 1 {
        lemma_scan_stop(t, i, j - 1);
        lemma_scan_state_stays(t, i + 1, j - 1);
        assert(t.subrange(0, j).drop_last() =~= t.subrange(0, j - 1));
    } else {
        assert(t.subrange(0, j).drop_last() =~= t.subrange(0, i));
    }
}

/// The message reading a malformed board field `t` fails with: a bad count
/// of empty squares or an unknown letter (at the character where reading
/// stopped), a rank without 8 columns, or a count of ranks other than 8.
pub open spec fn board_error(t: Seq<char>) -> Seq<char> {
    let s = scan_board(t);
    if s.code == 1 {
        "Invalid number of empty spaces: "@ + decimal((t[scan_stop(t)] as int - 48) as nat)
    } else if s.code == 2 {
        "Unexpected piece letter "@.push(t[scan_stop(t)])
    } else if s.code == 3 || s.x != 8 {
        "Board must have exactly 8 columns. We parsed: "@ + decimal(s.x as nat)
    } else {
        "Board must have exactly 8 rows. We parsed: "@ + decimal((s.y + 1) as nat)
    }
}

/// The message reading the FEN text `t` fails with: the board's error, or
/// a missing side to move, or an unknown one.
pub open spec fn fen_error(t: Seq<char>) -> Seq<char> {
    let tt = trimmed(t);
    let b = tt.subrange(0, fen_board_end(t));
    let (ts, te) = fen_turn_bounds(t);
    if board_code(b) != 0 {
        board_error(b)
    } else if fen_board_end(t) >= tt.len() {
        "Unsure whose turn it is. Cannot proceed."@
    } else {
        "Unexpected character for whose turn it is: "@ + tt.subrange(ts, te) + ". Should be 'w' or 'b'."@
    }
}

/// Reading a prefix one character longer is one more step.
pub proof fn lemma_scan_prefix(t: Seq<char>, i: int)
    requires
        0 <= i < t.len(),
    ensures
        scan_board(t.subrange(0, i + 1)) == scan_step(scan_board(t.subrange(0, i)), t[i]),
{
    assert(t.subrange(0, i + 1).drop_last() =~= t.subrange(0, i));
}

impl<'a> ChessGame<'a> {
    /// The position `import_fen` leaves: the position the text describes when
    /// it reads successfully, else the board read so far (with its hash) and
    /// the rest of the position unchanged.
    pub open spec fn imported_position(&self, t: Seq<char>) -> crate::position::Position {
        if fen_ok(t) {
            self.fen_position(t)
        } else {
            let sc = scan_board(trimmed(t).subrange(0, fen_board_end(t)));
            crate::position::Position {
                pb: placed(sc.pieces).0,
                occ: placed(sc.pieces).1,
                zobrist_hash: pieces_hash(self.bitboard_constants, sc.pieces),
                ..self.position()
            }
        }
    }
}

/// The en-passant field, when the text has one, is not a single character
/// of two bytes (reading such a field as a square fails for want of a
/// second character).
pub open spec fn fen_ep_fits(t: Seq<char>) -> bool {
    let tt = trimmed(t);
    let (es, ee) = fen_ep_bounds(t);
    fen_castling_bounds(t).1 < tt.len() ==> (utf8_len(tt.subrange(es, ee)) == 2 ==> ee - es == 2)
}

/// Whether `import_fen` may be called on the text: it is not absurdly long,
/// reading its board field never places a piece off the board, and its
/// en-passant field fits (see `fen_ep_fits`).
pub fn fen_is_readable(fen: &str) -> (r: bool)
    ensures
        r == (fen@.len() <= usize::MAX / 16 && fen_board_on_board(fen@) && fen_ep_fits(fen@)),
{
    if fen.unicode_len() > usize::MAX / 16 {
        return false;
    }
    let (lo, hi) = trim_bounds(fen);
    let t = fen.substring_char(lo, hi);
    proof {
        assert(t@ == trimmed(fen@));
    }
    let end = find_space_from(t, 0);
    let ghost tv = t@;
    let mut y: usize = 0;
    let mut x: usize = 0;
    let mut code: usize = 0;
    let mut i: usize = 0;
    while i < end
        invariant
            i <= end <= tv.len(),
            tv == t@,
            tv.len() <= usize::MAX / 16,
            y <= i,
            x <= 8 * i,
            scan_board(tv.subrange(0, i as int)).code == code,
            scan_board(tv.subrange(0, i as int)).y == y,
            scan_board(tv.subrange(0, i as int)).x == x,
        decreases end - i,
    {
        let c = t.get_char(i);
        proof {
            lemma_scan_prefix(tv, i as int);
        }
        if code == 0 {
            if c == '/' {
                if x != 8 {
                    code = 3;
                } else {
                    y += 1;
                    x = 0;
                }
            } else if '0' <= c && c <= '9' {
                let n = (c as u8 - 48u8) as usize;
                if n < 1 || n > 8 {
                    code = 1;
                } else {
                    x += n;
                }
            } else {
                let l = to_lower(c);
                if l == 'k' || l == 'q' || l == 'r' || l == 'b' || l == 'n' || l == 'p' {
                    if y * 8 + x >= 64 {
                        code = 4;
                    } else {
                        x += 1;
                    }
                } else {
                    code = 2;
                }
            }
        }
        i += 1;
    }
    proof {
        assert(tv.subrange(0, end as int) == trimmed(fen@).subrange(0, fen_board_end(fen@)));
    }
    if code == 4 {
        return false;
    }
    let n = t.unicode_len();
    if end >= n {
        proof {
            lemma_find_space_bounds(tv, n as int);
        }
        return true;
    }
    let turn_end = find_space_from(t, end + 1);
    if turn_end >= n {
        proof {
            lemma_find_space_bounds(tv, n as int);
        }
        return true;
    }
    let castling_end = find_space_from(t, turn_end + 1);
    if castling_end >= n {
        return true;
    }
    let ep_end = find_space_from(t, castling_end + 1);
    let field = t.substring_char(castling_end + 1, ep_end);
    !(byte_len(field) == 2 && ep_end - (castling_end + 1) != 2)
}

impl<'a> ChessGame<'a> {
    /// Reads the board field `t[..end]` onto the cleared board.
    fn read_board(&mut self, t: &str, end: usize) -> (r: Result<(), String>)
        requires
            old(self).bitboard_constants.shaped(),
            forall|i: int| 0 <= i < 12 ==> old(self).pb()[i] == 0,
            forall|i: int| 0 <= i < 3 ==> old(self).occ(i) == 0,
            old(self).zobrist_hash == 0,
            end <= t@.len(),
            t@.len() <= usize::MAX / 16,
            scan_board(t@.subrange(0, end as int)).code != 4,
        ensures
            r is Ok <==> board_code(t@.subrange(0, end as int)) == 0,
            r matches Err(m) ==> m@ == board_error(t@.subrange(0, end as int)),
            ({
                let sc = scan_board(t@.subrange(0, end as int));
                &&& final(self).piece_bitboards@ == placed(sc.pieces).0
                &&& final(self).occupancy_bitboards@ == placed(sc.pieces).1
                &&& final(self).zobrist_hash == pieces_hash(old(self).bitboard_constants, sc.pieces)
            }),
            *final(self) == (ChessGame {
                piece_bitboards: final(self).piece_bitboards,
                occupancy_bitboards: final(self).occupancy_bitboards,
                zobrist_hash: final(self).zobrist_hash,
                ..*old(self)
            }),
    {
        let ghost tv = t@;
        let mut y: usize = 0;
        let mut x: usize = 0;
        let mut i: usize = 0;
        proof {
            let none = Seq::<(Color, PieceType, int)>::empty();
            assert(tv.subrange(0, 0) =~= Seq::<char>::empty());
            assert(scan_board(tv.subrange(0, 0)).pieces == none);
            assert(none.len() == 0);
            assert(placed(none).0 == Seq::new(12, |j: int| 0u64));
            assert(placed(none).1 == Seq::new(3, |j: int| 0u64));
            assert forall|j: int| 0 <= j < 12 implies self.piece_bitboards@[j] == 0u64 by {
                assert(old(self).pb()[j] == 0);
            }
            assert forall|j: int| 0 <= j < 3 implies self.occupancy_bitboards@[j] == 0u64 by {
                assert(old(self).occ(j) == 0);
            }
            assert(self.piece_bitboards@ =~= placed(none).0);
            assert(self.occupancy_bitboards@ =~= placed(none).1);
        }
        while i < end
            invariant
                i <= end <= tv.len(),
                tv == t@,
                tv.len() <= usize::MAX / 16,
                y <= i,
                x <= 8 * i,
                scan_board(tv.subrange(0, end as int)).code != 4,
                scan_board(tv.subrange(0, i as int)).code == 0,
                scan_board(tv.subrange(0, i as int)).y == y,
                scan_board(tv.subrange(0, i as int)).x == x,
                self.bitboard_constants.shaped(),
                self.piece_bitboards@ == placed(scan_board(tv.subrange(0, i as int)).pieces).0,
                self.occupancy_bitboards@ == placed(scan_board(tv.subrange(0, i as int)).pieces).1,
                self.zobrist_hash == pieces_hash(self.bitboard_constants, scan_board(tv.subrange(0, i as int)).pieces),
                *self == (ChessGame {
                    piece_bitboards: self.piece_bitboards,
                    occupancy_bitboards: self.occupancy_bitboards,
                    zobrist_hash: self.zobrist_hash,
                    ..*old(self)
                }),
            decreases end - i,
        {
            let c = t.get_char(i);
            proof {
                lemma_scan_prefix(tv, i as int);
            }
            let ghost before = scan_board(tv.subrange(0, i as int));
            let ghost after = scan_board(tv.subrange(0, i + 1));
            if c == '/' {
                if x != 8 {
                    proof {
                        lemma_scan_state_stays(tv, i + 1, end as int);
                    }
                    let mut msg = String::from_str("Board must have exactly 8 columns. We parsed: ");
                    push_decimal(&mut msg, x);
                    return Err(msg);
                }
                y += 1;
                x = 0;
            } else if '0' <= c && c <= '9' {
                let num_empties = (c as u8 - 48u8) as usize;
                if num_empties < 1 || num_empties > 8 {
                    proof {
                        lemma_scan_state_stays(tv, i + 1, end as int);
                        lemma_scan_stop(tv, i as int, end as int);
                        assert(tv.subrange(0, end as int)[i as int] == c);
                    }
                    let mut msg = String::from_str("Invalid number of empty spaces: ");
                    push_decimal(&mut msg, num_empties);
                    return Err(msg);
                }
                x += num_empties;
            } else {
                let lower = to_lower(c);
                let piece_type = if lower == 'k' {
                    PieceType::King
                } else if lower == 'q' {
                    PieceType::Queen
                } else if lower == 'r' {
                    PieceType::Rook
                } else if lower == 'b' {
                    PieceType::Bishop
                } else if lower == 'n' {
                    PieceType::Knight
                } else if lower == 'p' {
                    PieceType::Pawn
                } else {
                    proof {
                        lemma_scan_state_stays(tv, i + 1, end as int);
                        lemma_scan_stop(tv, i as int, end as int);
                        assert(tv.subrange(0, end as int)[i as int] == c);
                    }
                    let mut msg = String::from_str("Unexpected piece letter ");
                    push_char(&mut msg, c);
                    return Err(msg);
                };
                proof {
                    if y * 8 + x >= 64 {
                        lemma_scan_code_stays(tv, i + 1, end as int);
                    }
                }
                assert(y * 8 + x < 64);
                let piece_color = if 'A' <= c && c <= 'Z' { Color::White } else { Color::Black };
                let square: usize = y * 8 + x;
                self.place_piece_on_board(piece_color, piece_type, square);
                let board = piece_type.bitboard_index() + piece_color.piece_bitboard_offset();
                self.zobrist_hash = self.zobrist_hash ^ self.bitboard_constants.zobrist_table[board][square];
                proof {
                    let k = piece_color.spec_offset() + piece_type.spec_index();
                    let (pb0, occ0) = placed(before.pieces);
                    assert(after.pieces == before.pieces.push((piece_color, piece_type, square as int)));
                    assert(after.pieces.drop_last() =~= before.pieces);
                    assert(self.piece_bitboards@ =~= placed(after.pieces).0);
                    assert(self.occupancy_bitboards@ =~= placed(after.pieces).1);
                }
                x += 1;
            }
            i += 1;
        }
        if x != 8 {
            let mut msg = String::from_str("Board must have exactly 8 columns. We parsed: ");
            push_decimal(&mut msg, x);
            return Err(msg);
        }
        y += 1;
        if y != 8 {
            let mut msg = String::from_str("Board must have exactly 8 rows. We parsed: ");
            push_decimal(&mut msg, y);
            return Err(msg);
        }
        Ok(())
    }
}

/// Combining hash keys does not depend on grouping.
pub proof fn lemma_xor_assoc(a: u64, b: u64, c: u64)
    ensures
        (a ^ b) ^ c == a ^ (b ^ c),
        a ^ 0u64 == a,
{
    crate::bitlemmas::lemma_bit_identities();
}

impl<'a> ChessGame<'a> {
    /// Reads the castling field `t[start..end]`: only the rights it names
    /// are held afterwards, each toggling its hash key.
    fn read_castling(&mut self, t: &str, start: usize, end: usize)
        requires
            old(self).bitboard_constants.shaped(),
            start <= end <= t@.len(),
        ensures
            ({
                let c = scan_castling(old(self).bitboard_constants, t@.subrange(start as int, end as int));
                &&& final(self).can_white_castle_short == c.0
                &&& final(self).can_white_castle_long == c.1
                &&& final(self).can_black_castle_short == c.2
                &&& final(self).can_black_castle_long == c.3
                &&& final(self).zobrist_hash == old(self).zobrist_hash ^ c.4
            }),
            *final(self) == (ChessGame {
                can_white_castle_short: final(self).can_white_castle_short,
                can_white_castle_long: final(self).can_white_castle_long,
                can_black_castle_short: final(self).can_black_castle_short,
                can_black_castle_long: final(self).can_black_castle_long,
                zobrist_hash: final(self).zobrist_hash,
                ..*old(self)
            }),
    {
        self.can_white_castle_long = false;
        self.can_white_castle_short = false;
        self.can_black_castle_long = false;
        self.can_black_castle_short = false;
        let ghost h0 = self.zobrist_hash;
        let ghost k = self.bitboard_constants;
        proof {
            lemma_xor_assoc(h0, 0, 0);
            assert(t@.subrange(start as int, start as int) =~= Seq::<char>::empty());
        }
        let mut i = start;
        while i < end
            invariant
                start <= i <= end <= t@.len(),
                k == self.bitboard_constants,
                k.shaped(),
                ({
                    let c = scan_castling(k, t@.subrange(start as int, i as int));
                    &&& self.can_white_castle_short == c.0
                    &&& self.can_white_castle_long == c.1
                    &&& self.can_black_castle_short == c.2
                    &&& self.can_black_castle_long == c.3
                    &&& self.zobrist_hash == h0 ^ c.4
                }),
                *self == (ChessGame {
                    can_white_castle_short: self.can_white_castle_short,
                    can_white_castle_long: self.can_white_castle_long,
                    can_black_castle_short: self.can_black_castle_short,
                    can_black_castle_long: self.can_black_castle_long,
                    zobrist_hash: self.zobrist_hash,
                    ..*old(self)
                }),
            decreases end - i,
        {
            let c = t.get_char(i);
            let ghost prev = scan_castling(k, t@.subrange(start as int, i as int));
            proof {
                assert(t@.subrange(start as int, i + 1).drop_last() =~= t@.subrange(start as int, i as int));
            }
            if c == 'K' {
                self.can_white_castle_short = true;
                self.zobrist_hash = self.zobrist_hash ^ self.bitboard_constants.zobrist_castling_rights[0];
                proof { lemma_xor_assoc(h0, prev.4, k.zobrist_castling_rights@[0]); }
            } else if c == 'Q' {
                self.can_white_castle_long = true;
                self.zobrist_hash = self.zobrist_hash ^ self.bitboard_constants.zobrist_castling_rights[1];
                proof { lemma_xor_assoc(h0, prev.4, k.zobrist_castling_rights@[1]); }
            } else if c == 'k' {
                self.can_black_castle_short = true;
                self.zobrist_hash = self.zobrist_hash ^ self.bitboard_constants.zobrist_castling_rights[2];
                proof { lemma_xor_assoc(h0, prev.4, k.zobrist_castling_rights@[2]); }
            } else if c == 'q' {
                self.can_black_castle_long = true;
                self.zobrist_hash = self.zobrist_hash ^ self.bitboard_constants.zobrist_castling_rights[3];
                proof { lemma_xor_assoc(h0, prev.4, k.zobrist_castling_rights@[3]); }
            }
            i += 1;
        }
    }

    /// Sets up the position a FEN text describes: the board, the side to
    /// move, and, when the text goes on, the castling rights and the
    /// en-passant target (cleared when it is not a square). Fails on a
    /// malformed board or a missing or unknown side to move.
    pub fn import_fen(&mut self, fen: &str) -> (r: Result<(), String>)
        requires
            old(self).bitboard_constants.shaped(),
            fen@.len() <= usize::MAX / 16,
            fen_board_on_board(fen@),
            fen_ep_fits(fen@),
        ensures
            r is Ok <==> fen_ok(fen@),
            r is Ok ==> final(self).position() == old(self).fen_position(fen@),
            r matches Err(m) ==> m@ == fen_error(fen@),
            final(self).position() == old(self).imported_position(fen@),
            r is Err ==> ({
                let sc = scan_board(trimmed(fen@).subrange(0, fen_board_end(fen@)));
                final(self).position() == crate::position::Position {
                    pb: placed(sc.pieces).0,
                    occ: placed(sc.pieces).1,
                    zobrist_hash: pieces_hash(old(self).bitboard_constants, sc.pieces),
                    ..old(self).position()
                }
            }),
            final(self).bitboard_constants == old(self).bitboard_constants,
            final(self).legal_moves == old(self).legal_moves,
            final(self).transposition_table == old(self).transposition_table,
            final(self).debug_minimax_calls == old(self).debug_minimax_calls,
            final(self).debug_mimimax_moves_made == old(self).debug_mimimax_moves_made,
    {
        self.zobrist_hash = 0;
        self.clear_board();
        let ghost g0 = *old(self);
        let ghost k = self.bitboard_constants;
        let (lo, hi) = trim_bounds(fen);
        let t = fen.substring_char(lo, hi);
        proof {
            assert(t@ == trimmed(fen@));
        }
        let board_end = find_space_from(t, 0);
        match self.read_board(t, board_end) {
            Ok(()) => {},
            Err(e) => {
                return Err(e);
            },
        }
        let ghost sc = scan_board(t@.subrange(0, board_end as int));
        let n = t.unicode_len();
        if board_end >= n {
            return Err(String::from_str("Unsure whose turn it is. Cannot proceed."));
        }
        let turn_start = board_end + 1;
        let turn_end = find_space_from(t, turn_start);
        let turn_len = turn_end - turn_start;
        let first = if turn_len >= 1 { t.get_char(turn_start) } else { ' ' };
        proof {
            let f = t@.subrange(turn_start as int, turn_end as int);
            if turn_len == 1 {
                assert(f =~= seq![first]);
                assert(f[0] == first);
                if !(first == 'w' || first == 'W' || first == 'b' || first == 'B') {
                    assert(!(f =~= seq!['w']) && !(f =~= seq!['W']) && !(f =~= seq!['b']) && !(f =~= seq!['B'])) by {
                        if f =~= seq!['w'] { assert(f[0] == 'w'); }
                        if f =~= seq!['W'] { assert(f[0] == 'W'); }
                        if f =~= seq!['b'] { assert(f[0] == 'b'); }
                        if f =~= seq!['B'] { assert(f[0] == 'B'); }
                    }
                }
            } else {
                assert(f.len() != 1);
                assert(!(f =~= seq!['w']) && !(f =~= seq!['W']) && !(f =~= seq!['b']) && !(f =~= seq!['B'])) by {
                    if f =~= seq!['w'] { assert(f.len() == 1); }
                    if f =~= seq!['W'] { assert(f.len() == 1); }
                    if f =~= seq!['b'] { assert(f.len() == 1); }
                    if f =~= seq!['B'] { assert(f.len() == 1); }
                }
            }
        }
        if turn_len == 1 && (first == 'w' || first == 'W') {
            self.white_to_move = true;
            proof {
                lemma_xor_assoc(self.zobrist_hash, 0, 0);
            }
        } else if turn_len == 1 && (first == 'b' || first == 'B') {
            self.white_to_move = false;
            self.zobrist_hash = self.zobrist_hash ^ self.bitboard_constants.zobrist_to_move;
        } else {
            let mut msg = String::from_str("Unexpected character for whose turn it is: ");
            msg.append(t.substring_char(turn_start, turn_end));
            msg.append(". Should be 'w' or 'b'.");
            return Err(msg);
        }
        let ghost h1 = self.zobrist_hash;
        if turn_end >= n {
            proof {
                lemma_xor_assoc(h1, 0, 0);
            }
            return Ok(());
        }
        let castling_start = turn_end + 1;
        let castling_end = find_space_from(t, castling_start);
        self.read_castling(t, castling_start, castling_end);
        let ghost h2 = self.zobrist_hash;
        if castling_end >= n {
            proof {
                lemma_xor_assoc(h2, 0, 0);
                let fp = g0.fen_position(fen@);
                assert(self.piece_bitboards@ == fp.pb);
                assert(self.occupancy_bitboards@ == fp.occ);
                assert(self.white_to_move == fp.white_to_move);
                assert(self.can_white_castle_short == fp.can_white_castle_short);
                assert(self.en_passant_target == fp.en_passant_target);
                assert(self.zobrist_hash == fp.zobrist_hash);
            }
            return Ok(());
        }
        let ep_start = castling_end + 1;
        let ep_end = find_space_from(t, ep_start);
        let coord = t.substring_char(ep_start, ep_end);
        match str_coord_to_square(coord) {
            Ok(square) => {
                self.en_passant_target = Some(square);
                self.zobrist_hash = self.zobrist_hash ^ self.bitboard_constants.zobrist_en_passant[square % 8];
            },
            Err(_) => {
                self.en_passant_target = None;
                proof {
                    lemma_xor_assoc(h2, 0, 0);
                }
            },
        }
        Ok(())
    }
}

impl<'a> ChessGame<'a> {
    /// The board part of the FEN text from square `sq` on, `empties` empty
    /// squares of the current rank not yet written: piece letters (upper
    /// case for white), runs of empty squares as digits, ranks separated by
    /// '/'.
    #[verifier::opaque]
    pub open spec fn board_fen_from(&self, sq: int, empties: nat) -> Seq<char>
        decreases 64 - sq,
    {
        if sq >= 64 || sq < 0 {
            seq![]
        } else {
            let (pre, e2): (Seq<char>, nat) = match self.piece_at(sq) {
                Some((p, c)) => (
                    (if empties > 0 { decimal(empties) } else { seq![] }).push(p.spec_char_for(c)),
                    0,
                ),
                None => (seq![], empties + 1),
            };
            if sq % 8 == 7 {
                pre + (if e2 > 0 { decimal(e2) } else { seq![] }) + (if sq != 63 { seq!['/'] } else { seq![] })
                    + self.board_fen_from(sq + 1, 0)
            } else {
                pre + self.board_fen_from(sq + 1, e2)
            }
        }
    }

    /// The castling part of the FEN text: the letters of the rights held,
    /// or "-" for none.
    pub open spec fn castling_fen(&self) -> Seq<char> {
        let s = (if self.can_white_castle_short { seq!['K'] } else { seq![] })
            + (if self.can_white_castle_long { seq!['Q'] } else { seq![] })
            + (if self.can_black_castle_short { seq!['k'] } else { seq![] })
            + (if self.can_black_castle_long { seq!['q'] } else { seq![] });
        if s.len() == 0 { seq!['-'] } else { s }
    }

    /// The FEN text of the position: board, side to move, castling rights
    /// and en-passant target.
    pub open spec fn fen_text(&self) -> Seq<char> {
        self.board_fen_from(0, 0) + (if self.white_to_move { seq![' ', 'w', ' '] } else { seq![' ', 'b', ' '] })
            + self.castling_fen() + seq![' '] + match self.en_passant_target {
            Some(sq) => coord_text(sq as int),
            None => seq!['-'],
        }
    }

    /// The board part of the FEN text.
    fn board_fen(&self) -> (r: String)
        requires
            self.occupancy_consistent(),
        ensures
            r@ == self.board_fen_from(0, 0),
    {
        proof {
            reveal(ChessGame::board_fen_from);
        }
        let mut fen = String::new();
        let mut prior_empty_count: usize = 0;
        let mut square: usize = 0;
        while square < 64
            invariant
                square <= 64,
                prior_empty_count <= square % 8,
                self.occupancy_consistent(),
                fen@ + self.board_fen_from(square as int, prior_empty_count as nat) == self.board_fen_from(0, 0),
            decreases 64 - square,
        {
            let file = square % 8;
            let ghost before = fen@;
            let ghost e_old = prior_empty_count;
            let (piece_option, color_option) = self.get_piece_at_square(square);
            let ghost pre_len = fen@.len();
            match piece_option {
                Some(piece) => {
                    if prior_empty_count > 0 {
                        push_decimal(&mut fen, prior_empty_count);
                        prior_empty_count = 0;
                    }
                    push_char(&mut fen, piece.to_char(color_option.unwrap()));
                },
                None => {
                    prior_empty_count += 1;
                },
            }
            if file == 7 {
                if prior_empty_count > 0 {
                    push_decimal(&mut fen, prior_empty_count);
                }
                prior_empty_count = 0;
                if square != 63 {
                    push_char(&mut fen, '/');
                }
            }
            proof {
                reveal(ChessGame::board_fen_from);
                assert(before + self.board_fen_from(square as int, e_old as nat) =~= fen@
                    + self.board_fen_from(square + 1, prior_empty_count as nat));
            }
            square += 1;
        }
        proof {
            reveal(ChessGame::board_fen_from);
            assert(fen@ + self.board_fen_from(64, prior_empty_count as nat) =~= fen@);
        }
        fen
    }

    /// Appends the castling part of the FEN text.
    fn push_castling_fen(&self, fen: &mut String)
        ensures
            final(fen)@ == old(fen)@ + self.castling_fen(),
    {
        if self.can_white_castle_short {
            push_char(fen, 'K');
        }
        if self.can_white_castle_long {
            push_char(fen, 'Q');
        }
        if self.can_black_castle_short {
            push_char(fen, 'k');
        }
        if self.can_black_castle_long {
            push_char(fen, 'q');
        }
        if !self.can_white_castle_short && !self.can_white_castle_long && !self.can_black_castle_short
            && !self.can_black_castle_long {
            push_char(fen, '-');
        }
        proof {
            assert(fen@ =~= old(fen)@ + self.castling_fen());
        }
    }

    /// The FEN text of the position (without move counters).
    pub fn export_fen(&self) -> (r: String)
        requires
            self.occupancy_consistent(),
            self.en_passant_target matches Some(sq) ==> sq < 64,
        ensures
            r@ == self.fen_text(),
    {
        let mut fen = self.board_fen();
        let ghost board = fen@;
        push_char(&mut fen, ' ');
        push_char(&mut fen, if self.white_to_move { 'w' } else { 'b' });
        push_char(&mut fen, ' ');
        let ghost turn = fen@;
        self.push_castling_fen(&mut fen);
        push_char(&mut fen, ' ');
        let ghost before_ep = fen@;
        match self.en_passant_target {
            Some(square) => {
                let coord = square_to_coord(square);
                fen.append(coord.as_str());
            },
            None => push_char(&mut fen, '-'),
        }
        proof {
            assert(fen@ =~= self.fen_text());
        }
        fen
    }
}

} // verus!
