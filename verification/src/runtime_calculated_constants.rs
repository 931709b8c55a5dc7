//! Attack tables that are computed when the engine starts.
use vstd::prelude::*;
use crate::bitlemmas::{lemma_has_bit_or, lemma_has_bit_and, lemma_has_bit_zero, lemma_has_bit_single_shr, lemma_has_bit_single_shl};
use crate::color::Color;
use crate::helpers::{has_bit, set_bit, pop_bit, get_bit, get_lsb_index, lsb, clear_lsb, popcount, lemma_lsb, lemma_popcount_clear_lsb, lemma_clear_lsb_lt};

verus! {

pub const NOT_FILE_A: u64 = 18374403900871474942;
pub const NOT_FILE_B: u64 = 18302063728033398269;
pub const NOT_FILE_AB: u64 = 18229723555195321596;
pub const NOT_FILE_G: u64 = 13816973012072644543;
pub const NOT_FILE_H: u64 = 9187201950435737471;
pub const NOT_FILE_GH: u64 = 4557430888798830399;

/// `t` is the square `dr` rows down and `df` files right of `s`, on the board.
pub open spec fn is_offset(s: int, t: int, dr: int, df: int) -> bool {
    0 <= t < 64 && t / 8 == s / 8 + dr && t % 8 == s % 8 + df
}

/// Squares a pawn of `side` on `s` attacks (white moves towards row 0).
pub open spec fn pawn_attack_target(s: int, side: Color, t: int) -> bool {
    match side {
        Color::White => is_offset(s, t, -1, 1) || is_offset(s, t, -1, -1),
        Color::Black => is_offset(s, t, 1, 1) || is_offset(s, t, 1, -1),
    }
}

/// Squares a knight on `s` attacks.
pub open spec fn knight_attack_target(s: int, t: int) -> bool {
    is_offset(s, t, -1, -2) || is_offset(s, t, -2, -1) || is_offset(s, t, -1, 2) || is_offset(
        s,
        t,
        -2,
        1,
    ) || is_offset(s, t, 1, -2) || is_offset(s, t, 2, -1) || is_offset(s, t, 1, 2) || is_offset(
        s,
        t,
        2,
        1,
    )
}

/// Squares a king on `s` attacks.
pub open spec fn king_attack_target(s: int, t: int) -> bool {
    is_offset(s, t, -1, -1) || is_offset(s, t, -1, 0) || is_offset(s, t, -1, 1) || is_offset(
        s,
        t,
        0,
        -1,
    ) || is_offset(s, t, 0, 1) || is_offset(s, t, 1, -1) || is_offset(s, t, 1, 0) || is_offset(
        s,
        t,
        1,
        1,
    )
}

proof fn lemma_file_masks(t: int)
    requires
        0 <= t < 64,
    ensures
        has_bit(NOT_FILE_A, t) == (t % 8 != 0),
        has_bit(NOT_FILE_H, t) == (t % 8 != 7),
        has_bit(NOT_FILE_AB, t) == (t % 8 >= 2),
        has_bit(NOT_FILE_GH, t) == (t % 8 < 6),
{
    let tt = t as u64;
    assert(tt < 64 ==> ((NOT_FILE_A >> tt) & 1u64 == 1u64) == (tt % 8 != 0)) by (bit_vector);
    assert(tt < 64 ==> ((NOT_FILE_H >> tt) & 1u64 == 1u64) == (tt % 8 != 7)) by (bit_vector);
    assert(tt < 64 ==> ((NOT_FILE_AB >> tt) & 1u64 == 1u64) == (tt % 8 >= 2)) by (bit_vector);
    assert(tt < 64 ==> ((NOT_FILE_GH >> tt) & 1u64 == 1u64) == (tt % 8 < 6)) by (bit_vector);
}

/// One shifted, file-masked term of an attack pattern.
proof fn lemma_term_shr(s: u64, k: u64, m: u64, t: int)
    requires
        s < 64,
        k < 64,
    ensures
        has_bit(((1u64 << s) >> k) & m, t) == (0 <= t && t + k == s && has_bit(m, t)),
{
    lemma_has_bit_and((1u64 << s) >> k, m, t);
    lemma_has_bit_single_shr(s, k, t);
}

proof fn lemma_term_shl(s: u64, k: u64, m: u64, t: int)
    requires
        s < 64,
        k < 64,
    ensures
        has_bit(((1u64 << s) << k) & m, t) == (t < 64 && t == s + k && has_bit(m, t)),
{
    lemma_has_bit_and((1u64 << s) << k, m, t);
    lemma_has_bit_single_shl(s, k, t);
}

/// The squares attacked by a pawn of `side` standing on `square`.
pub fn mask_pawn_attacks(square: usize, side: Color) -> (r: u64)
    requires
        square < 64,
    ensures
        forall|t: int| #[trigger] has_bit(r, t) == pawn_attack_target(square as int, side, t),
{
    let mut attacks: u64 = 0;
    let mut bitboard: u64 = 0;
    bitboard = set_bit(bitboard, square);
    let ghost s = square as u64;
    assert(bitboard == 1u64 << s) by {
        crate::bitlemmas::lemma_bit_identities();
    }
    match side {
        Color::White => {
            attacks |= (bitboard >> 7u64) & NOT_FILE_A;
            attacks |= (bitboard >> 9u64) & NOT_FILE_H;
        },
        Color::Black => {
            attacks |= (bitboard << 9u64) & NOT_FILE_A;
            attacks |= (bitboard << 7u64) & NOT_FILE_H;
        },
    }
    proof {
        assert forall|t: int| #[trigger] has_bit(attacks, t) == pawn_attack_target(
            square as int,
            side,
            t,
        ) by {
            lemma_has_bit_zero(t);
            if 0 <= t < 64 {
                lemma_file_masks(t);
            }
            match side {
                Color::White => {
                    lemma_has_bit_or(0u64 | ((bitboard >> 7u64) & NOT_FILE_A), (bitboard >> 9u64) & NOT_FILE_H, t);
                    lemma_has_bit_or(0u64, (bitboard >> 7u64) & NOT_FILE_A, t);
                    lemma_term_shr(s, 7, NOT_FILE_A, t);
                    lemma_term_shr(s, 9, NOT_FILE_H, t);
                },
                Color::Black => {
                    lemma_has_bit_or(0u64 | ((bitboard << 9u64) & NOT_FILE_A), (bitboard << 7u64) & NOT_FILE_H, t);
                    lemma_has_bit_or(0u64, (bitboard << 9u64) & NOT_FILE_A, t);
                    lemma_term_shl(s, 9, NOT_FILE_A, t);
                    lemma_term_shl(s, 7, NOT_FILE_H, t);
                },
            }
        }
    }
    attacks
}

/// The squares attacked by a knight standing on `square`.
pub fn mask_knight_attacks(square: usize) -> (r: u64)
    requires
        square < 64,
    ensures
        forall|t: int| #[trigger] has_bit(r, t) == knight_attack_target(square as int, t),
{
    let mut attacks: u64 = 0;
    let mut bitboard: u64 = 0;
    bitboard = set_bit(bitboard, square);
    let ghost s = square as u64;
    assert(bitboard == 1u64 << s) by {
        crate::bitlemmas::lemma_bit_identities();
    }
    let ghost a0 = attacks;
    attacks |= (bitboard >> 10u64) & NOT_FILE_GH;
    let ghost a1 = attacks;
    attacks |= (bitboard >> 17u64) & NOT_FILE_H;
    let ghost a2 = attacks;
    attacks |= (bitboard >> 6u64) & NOT_FILE_AB;
    let ghost a3 = attacks;
    attacks |= (bitboard >> 15u64) & NOT_FILE_A;
    let ghost a4 = attacks;
    attacks |= (bitboard << 6u64) & NOT_FILE_GH;
    let ghost a5 = attacks;
    attacks |= (bitboard << 15u64) & NOT_FILE_H;
    let ghost a6 = attacks;
    attacks |= (bitboard << 10u64) & NOT_FILE_AB;
    let ghost a7 = attacks;
    attacks |= (bitboard << 17u64) & NOT_FILE_A;
    proof {
        assert forall|t: int| #[trigger] has_bit(attacks, t) == knight_attack_target(square as int, t) by {
            lemma_has_bit_zero(t);
            if 0 <= t < 64 {
                lemma_file_masks(t);
            }
            lemma_has_bit_or(a0, (bitboard >> 10u64) & NOT_FILE_GH, t);
            lemma_term_shr(s, 10, NOT_FILE_GH, t);
            lemma_has_bit_or(a1, (bitboard >> 17u64) & NOT_FILE_H, t);
            lemma_term_shr(s, 17, NOT_FILE_H, t);
            lemma_has_bit_or(a2, (bitboard >> 6u64) & NOT_FILE_AB, t);
            lemma_term_shr(s, 6, NOT_FILE_AB, t);
            lemma_has_bit_or(a3, (bitboard >> 15u64) & NOT_FILE_A, t);
            lemma_term_shr(s, 15, NOT_FILE_A, t);
            lemma_has_bit_or(a4, (bitboard << 6u64) & NOT_FILE_GH, t);
            lemma_term_shl(s, 6, NOT_FILE_GH, t);
            lemma_has_bit_or(a5, (bitboard << 15u64) & NOT_FILE_H, t);
            lemma_term_shl(s, 15, NOT_FILE_H, t);
            lemma_has_bit_or(a6, (bitboard << 10u64) & NOT_FILE_AB, t);
            lemma_term_shl(s, 10, NOT_FILE_AB, t);
            lemma_has_bit_or(a7, (bitboard << 17u64) & NOT_FILE_A, t);
            lemma_term_shl(s, 17, NOT_FILE_A, t);
        }
    }
    attacks
}

/// The squares attacked by a king standing on `square`.
pub fn mask_king_attacks(square: usize) -> (r: u64)
    requires
        square < 64,
    ensures
        forall|t: int| #[trigger] has_bit(r, t) == king_attack_target(square as int, t),
{
    let mut attacks: u64 = 0;
    let mut bitboard: u64 = 0;
    bitboard = set_bit(bitboard, square);
    let ghost s = square as u64;
    assert(bitboard == 1u64 << s) by {
        crate::bitlemmas::lemma_bit_identities();
    }
    let ghost a0 = attacks;
    attacks |= (bitboard >> 9u64) & NOT_FILE_H;
    let ghost a1 = attacks;
    attacks |= (bitboard >> 8u64);
    let ghost a2 = attacks;
    attacks |= (bitboard >> 7u64) & NOT_FILE_A;
    let ghost a3 = attacks;
    attacks |= (bitboard >> 1u64) & NOT_FILE_H;
    let ghost a4 = attacks;
    attacks |= (bitboard << 1u64) & NOT_FILE_A;
    let ghost a5 = attacks;
    attacks |= (bitboard << 7u64) & NOT_FILE_H;
    let ghost a6 = attacks;
    attacks |= (bitboard << 8u64);
    let ghost a7 = attacks;
    attacks |= (bitboard << 9u64) & NOT_FILE_A;
    proof {
        assert forall|t: int| #[trigger] has_bit(attacks, t) == king_attack_target(square as int, t) by {
            lemma_has_bit_zero(t);
            if 0 <= t < 64 {
                lemma_file_masks(t);
            }
            lemma_has_bit_or(a0, (bitboard >> 9u64) & NOT_FILE_H, t);
            lemma_term_shr(s, 9, NOT_FILE_H, t);
            lemma_has_bit_or(a1, (bitboard >> 8u64), t);
            lemma_has_bit_single_shr(s, 8, t);
            lemma_has_bit_or(a2, (bitboard >> 7u64) & NOT_FILE_A, t);
            lemma_term_shr(s, 7, NOT_FILE_A, t);
            lemma_has_bit_or(a3, (bitboard >> 1u64) & NOT_FILE_H, t);
            lemma_term_shr(s, 1, NOT_FILE_H, t);
            lemma_has_bit_or(a4, (bitboard << 1u64) & NOT_FILE_A, t);
            lemma_term_shl(s, 1, NOT_FILE_A, t);
            lemma_has_bit_or(a5, (bitboard << 7u64) & NOT_FILE_H, t);
            lemma_term_shl(s, 7, NOT_FILE_H, t);
            lemma_has_bit_or(a6, (bitboard << 8u64), t);
            lemma_has_bit_single_shl(s, 8, t);
            lemma_has_bit_or(a7, (bitboard << 9u64) & NOT_FILE_A, t);
            lemma_term_shl(s, 9, NOT_FILE_A, t);
        }
    }
    attacks
}

/// Row change of ray direction `d`: directions 0-3 are the diagonals
/// (down-right, down-left, up-right, up-left), 4-7 the lines (right, left,
/// up, down); "down" means towards rank 1.
pub open spec fn dir_dr(d: int) -> int {
    if d == 0 || d == 1 || d == 7 {
        1
    } else if d == 2 || d == 3 || d == 6 {
        -1
    } else {
        0
    }
}

/// File change of ray direction `d`.
pub open spec fn dir_df(d: int) -> int {
    if d == 0 || d == 2 || d == 4 {
        1
    } else if d == 1 || d == 3 || d == 5 {
        -1
    } else {
        0
    }
}

/// The neighbour of square `s` in direction `d`, if it is on the board.
pub open spec fn step_sq(s: int, d: int) -> Option<int> {
    let r = s / 8 + dir_dr(d);
    let f = s % 8 + dir_df(d);
    if 0 <= s < 64 && 0 <= r < 8 && 0 <= f < 8 {
        Some(r * 8 + f)
    } else {
        None
    }
}

/// Steps left from `s` before direction `d` leaves the board.
pub open spec fn steps_left(s: int, d: int) -> int {
    let a = if dir_dr(d) == 1 {
        7 - s / 8
    } else if dir_dr(d) == -1 {
        s / 8
    } else {
        8
    };
    let b = if dir_df(d) == 1 {
        7 - s % 8
    } else if dir_df(d) == -1 {
        s % 8
    } else {
        8
    };
    if a < b {
        a
    } else {
        b
    }
}

pub proof fn lemma_step_sq(s: int, d: int)
    requires
        0 <= d < 8,
        step_sq(s, d) is Some,
    ensures
        0 <= step_sq(s, d)->0 < 64,
        step_sq(s, d)->0 / 8 == s / 8 + dir_dr(d),
        step_sq(s, d)->0 % 8 == s % 8 + dir_df(d),
        0 <= steps_left(step_sq(s, d)->0, d) < steps_left(s, d),
{
    let r = s / 8 + dir_dr(d);
    let f = s % 8 + dir_df(d);
    assert((r * 8 + f) / 8 == r && (r * 8 + f) % 8 == f) by (nonlinear_arith)
        requires
            0 <= r < 8,
            0 <= f < 8,
    ;
}

/// Squares a slider on `s` reaches along direction `d`, stopping at (and
/// including) the first square set in `block`.
pub open spec fn ray(s: int, block: u64, d: int) -> u64
    decreases steps_left(s, d),
{
    if 0 <= d < 8 {
        match step_sq(s, d) {
            None => 0,
            Some(n) => {
                proof {
                    lemma_step_sq(s, d);
                }
                (1u64 << (n as u64)) | (if has_bit(block, n) {
                    0
                } else {
                    ray(n, block, d)
                })
            },
        }
    } else {
        0
    }
}

/// Squares along direction `d` from `s` that have a further square beyond
/// them (the ray without its last, board-edge square).
pub open spec fn inner_ray(s: int, d: int) -> u64
    decreases steps_left(s, d),
{
    if 0 <= d < 8 {
        match step_sq(s, d) {
            None => 0,
            Some(n) => {
                proof {
                    lemma_step_sq(s, d);
                }
                if step_sq(n, d) is Some {
                    (1u64 << (n as u64)) | inner_ray(n, d)
                } else {
                    0
                }
            },
        }
    } else {
        0
    }
}

/// Squares a bishop on `s` attacks when `block` holds the occupied squares.
pub open spec fn bishop_rays(s: int, block: u64) -> u64 {
    ray(s, block, 0) | ray(s, block, 1) | ray(s, block, 2) | ray(s, block, 3)
}

/// Squares a rook on `s` attacks when `block` holds the occupied squares.
pub open spec fn rook_rays(s: int, block: u64) -> u64 {
    ray(s, block, 4) | ray(s, block, 5) | ray(s, block, 6) | ray(s, block, 7)
}

/// Squares whose occupancy can change a bishop's attacks from `s`.
pub open spec fn bishop_mask(s: int) -> u64 {
    inner_ray(s, 0) | inner_ray(s, 1) | inner_ray(s, 2) | inner_ray(s, 3)
}

/// Squares whose occupancy can change a rook's attacks from `s`.
pub open spec fn rook_mask(s: int) -> u64 {
    inner_ray(s, 4) | inner_ray(s, 5) | inner_ray(s, 6) | inner_ray(s, 7)
}

fn dir_dr_exec(d: usize) -> (r: i64)
    ensures
        r == dir_dr(d as int),
{
    if d == 0 || d == 1 || d == 7 {
        1
    } else if d == 2 || d == 3 || d == 6 {
        -1
    } else {
        0
    }
}

fn dir_df_exec(d: usize) -> (r: i64)
    ensures
        r == dir_df(d as int),
{
    if d == 0 || d == 2 || d == 4 {
        1
    } else if d == 1 || d == 3 || d == 5 {
        -1
    } else {
        0
    }
}

/// Walks from `square` along direction `d`. With `full` it collects the ray up
/// to the first square set in `block`; otherwise it collects the squares that
/// have a further square beyond them, ignoring `block`.
fn slide(square: u64, block: u64, d: usize, full: bool) -> (r: u64)
    requires
        square < 64,
        d < 8,
    ensures
        full ==> r == ray(square as int, block, d as int),
        !full ==> r == inner_ray(square as int, d as int),
{
    let dr = dir_dr_exec(d);
    let df = dir_df_exec(d);
    let mut rank: i64 = (square / 8) as i64;
    let mut file: i64 = (square % 8) as i64;
    let mut attacks: u64 = 0;
    let ghost goal: u64 = if full {
        ray(square as int, block, d as int)
    } else {
        inner_ray(square as int, d as int)
    };
    proof {
        let q = square as int;
        assert(q / 8 * 8 + q % 8 == q) by (nonlinear_arith);
        crate::bitlemmas::lemma_bit_identities();
    }
    loop
        invariant_except_break
            attacks | (if full {
                ray(rank * 8 + file, block, d as int)
            } else {
                inner_ray(rank * 8 + file, d as int)
            }) == goal,
        invariant
            0 <= rank < 8,
            0 <= file < 8,
            dr == dir_dr(d as int),
            df == dir_df(d as int),
            d < 8,
            goal == (if full {
                ray(square as int, block, d as int)
            } else {
                inner_ray(square as int, d as int)
            }),
        ensures
            attacks == goal,
        decreases steps_left(rank * 8 + file, d as int),
    {
        let cur = rank * 8 + file;
        proof {
            assert((rank * 8 + file) / 8 == rank && (rank * 8 + file) % 8 == file)
                by (nonlinear_arith)
                requires
                    0 <= rank < 8,
                    0 <= file < 8,
            ;
        }
        let nr = rank + dr;
        let nf = file + df;
        if !(0 <= nr && nr < 8 && 0 <= nf && nf < 8) {
            proof {
                assert(step_sq(cur as int, d as int) is None);
                crate::bitlemmas::lemma_bit_identities();
            }
            break;
        }
        let next = (nr * 8 + nf) as u64;
        proof {
            lemma_step_sq(cur as int, d as int);
            assert(step_sq(cur as int, d as int) == Some(next as int));
        }
        if !full {
            let nnr = nr + dr;
            let nnf = nf + df;
            if !(0 <= nnr && nnr < 8 && 0 <= nnf && nnf < 8) {
                proof {
                    assert((nr * 8 + nf) / 8 == nr && (nr * 8 + nf) % 8 == nf)
                        by (nonlinear_arith)
                        requires
                            0 <= nr < 8,
                            0 <= nf < 8,
                    ;
                    assert(step_sq(next as int, d as int) is None);
                    assert(inner_ray(cur as int, d as int) == 0u64);
                    crate::bitlemmas::lemma_bit_identities();
                }
                break;
            }
            proof {
                assert((nr * 8 + nf) / 8 == nr && (nr * 8 + nf) % 8 == nf) by (nonlinear_arith)
                    requires
                        0 <= nr < 8,
                        0 <= nf < 8,
                ;
                assert(step_sq(next as int, d as int) is Some);
            }
        }
        let focus_square: u64 = 1u64 << next;
        let ghost before = attacks;
        attacks |= focus_square;
        if full && (focus_square & block) != 0 {
            proof {
                assert(next < 64 ==> ((focus_square & block) != 0) == ((block >> next) & 1u64 == 1u64))
                    by (bit_vector)
                    requires
                        focus_square == 1u64 << next,
                ;
                assert(has_bit(block, next as int));
                crate::bitlemmas::lemma_bit_identities();
            }
            break;
        }
        proof {
            let rest = if full {
                ray(next as int, block, d as int)
            } else {
                inner_ray(next as int, d as int)
            };
            if full {
                assert(next < 64 ==> ((focus_square & block) != 0) == ((block >> next) & 1u64 == 1u64))
                    by (bit_vector)
                    requires
                        focus_square == 1u64 << next,
                ;
                assert(!has_bit(block, next as int));
            }
            crate::bitlemmas::lemma_bit_identities();
            assert((nr * 8 + nf) as int == next as int);
        }
        rank = nr;
        file = nf;
    }
    attacks
}

/// Squares whose occupancy can change a bishop's attacks from `square`.
pub fn mask_bishop_attacks(square: u64) -> (r: u64)
    requires
        square < 64,
    ensures
        r == bishop_mask(square as int),
{
    let a0 = slide(square, 0, 0, false);
    let a1 = slide(square, 0, 1, false);
    let a2 = slide(square, 0, 2, false);
    let a3 = slide(square, 0, 3, false);
    a0 | a1 | a2 | a3
}

/// Squares a bishop on `square` attacks when `block` holds the occupied squares.
pub fn dynamic_bishop_attacks(square: u64, block: u64) -> (r: u64)
    requires
        square < 64,
    ensures
        r == bishop_rays(square as int, block),
{
    let a0 = slide(square, block, 0, true);
    let a1 = slide(square, block, 1, true);
    let a2 = slide(square, block, 2, true);
    let a3 = slide(square, block, 3, true);
    a0 | a1 | a2 | a3
}

/// Squares whose occupancy can change a rook's attacks from `square`.
pub fn mask_rook_attacks(square: u64) -> (r: u64)
    requires
        square < 64,
    ensures
        r == rook_mask(square as int),
{
    let a0 = slide(square, 0, 4, false);
    let a1 = slide(square, 0, 5, false);
    let a2 = slide(square, 0, 6, false);
    let a3 = slide(square, 0, 7, false);
    a0 | a1 | a2 | a3
}

/// Squares a rook on `square` attacks when `block` holds the occupied squares.
pub fn dynamic_rook_attacks(square: u64, block: u64) -> (r: u64)
    requires
        square < 64,
    ensures
        r == rook_rays(square as int, block),
{
    let a0 = slide(square, block, 4, true);
    let a1 = slide(square, block, 5, true);
    let a2 = slide(square, block, 6, true);
    let a3 = slide(square, block, 7, true);
    a0 | a1 | a2 | a3
}

/// A fresh pseudo-random 64-bit key.
///
/// Trusted: calls `rand::random::<u64>()`, which draws from the thread-local
/// generator; nothing is promised about the value returned.
#[verifier::external_body]
fn random_u64() -> (r: u64) {
    rand::random::<u64>()
}

/// Attack tables of the leaper pieces and the Zobrist hashing keys.
pub struct Constants {
    /// `pawn_attacks[side][square]`, 2 x 64.
    pub pawn_attacks: Vec<Vec<u64>>,
    /// 64 entries.
    pub knight_attacks: Vec<u64>,
    /// 64 entries.
    pub king_attacks: Vec<u64>,
    /// One key per piece bitboard and square, 12 x 64.
    pub zobrist_table: Vec<Vec<u64>>,
    /// Key for "black to move".
    pub zobrist_to_move: u64,
    /// Keys for the castling rights: white short, white long, black short, black long.
    pub zobrist_castling_rights: Vec<u64>,
    /// Keys for the file of the en-passant target, 8 entries.
    pub zobrist_en_passant: Vec<u64>,
}

/// `n` random keys.
fn random_keys(n: usize) -> (r: Vec<u64>)
    ensures
        r@.len() == n,
{
    let mut keys: Vec<u64> = Vec::new();
    for i in 0..n
        invariant
            keys@.len() == i,
    {
        keys.push(random_u64());
    }
    keys
}

impl Constants {
    /// The tables have their documented dimensions.
    pub open spec fn shaped(&self) -> bool {
        &&& self.pawn_attacks@.len() == 2
        &&& self.pawn_attacks@[0]@.len() == 64
        &&& self.pawn_attacks@[1]@.len() == 64
        &&& self.knight_attacks@.len() == 64
        &&& self.king_attacks@.len() == 64
        &&& self.zobrist_table@.len() == 12
        &&& forall|i: int| 0 <= i < 12 ==> (#[trigger] self.zobrist_table@[i])@.len() == 64
        &&& self.zobrist_castling_rights@.len() == 4
        &&& self.zobrist_en_passant@.len() == 8
    }

    /// The attack tables hold exactly the squares that each leaper attacks.
    pub open spec fn tables_correct(&self) -> bool {
        &&& self.shaped()
        &&& forall|s: int, t: int|
            0 <= s < 64 ==> (#[trigger] has_bit(self.pawn_attacks@[0]@[s], t)
                == pawn_attack_target(s, Color::White, t))
        &&& forall|s: int, t: int|
            0 <= s < 64 ==> (#[trigger] has_bit(self.pawn_attacks@[1]@[s], t)
                == pawn_attack_target(s, Color::Black, t))
        &&& forall|s: int, t: int|
            0 <= s < 64 ==> (#[trigger] has_bit(self.knight_attacks@[s], t)
                == knight_attack_target(s, t))
        &&& forall|s: int, t: int|
            0 <= s < 64 ==> (#[trigger] has_bit(self.king_attacks@[s], t) == king_attack_target(
                s,
                t,
            ))
    }

    pub fn new() -> (r: Self)
        ensures
            r.tables_correct(),
    {
        let mut white_pawn: Vec<u64> = Vec::new();
        let mut black_pawn: Vec<u64> = Vec::new();
        let mut knight_attacks: Vec<u64> = Vec::new();
        let mut king_attacks: Vec<u64> = Vec::new();
        for square in 0..64
            invariant
                white_pawn@.len() == square,
                black_pawn@.len() == square,
                knight_attacks@.len() == square,
                king_attacks@.len() == square,
                forall|s: int, t: int|
                    0 <= s < square ==> (#[trigger] has_bit(white_pawn@[s], t)
                        == pawn_attack_target(s, Color::White, t)),
                forall|s: int, t: int|
                    0 <= s < square ==> (#[trigger] has_bit(black_pawn@[s], t)
                        == pawn_attack_target(s, Color::Black, t)),
                forall|s: int, t: int|
                    0 <= s < square ==> (#[trigger] has_bit(knight_attacks@[s], t)
                        == knight_attack_target(s, t)),
                forall|s: int, t: int|
                    0 <= s < square ==> (#[trigger] has_bit(king_attacks@[s], t)
                        == king_attack_target(s, t)),
        {
            white_pawn.push(mask_pawn_attacks(square, Color::White));
            black_pawn.push(mask_pawn_attacks(square, Color::Black));
            knight_attacks.push(mask_knight_attacks(square));
            king_attacks.push(mask_king_attacks(square));
        }
        let mut zobrist_table: Vec<Vec<u64>> = Vec::new();
        for piece in 0..12
            invariant
                zobrist_table@.len() == piece,
                forall|i: int| 0 <= i < piece ==> (#[trigger] zobrist_table@[i])@.len() == 64,
        {
            zobrist_table.push(random_keys(64));
        }
        let mut pawn_attacks: Vec<Vec<u64>> = Vec::new();
        pawn_attacks.push(white_pawn);
        pawn_attacks.push(black_pawn);
        Constants {
            pawn_attacks,
            knight_attacks,
            king_attacks,
            zobrist_table,
            zobrist_to_move: random_u64(),
            zobrist_castling_rights: random_keys(4),
            zobrist_en_passant: random_keys(8),
        }
    }
}

} // verus!
