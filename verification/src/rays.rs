//! What a slider's ray contains, and that attacking along a ray is symmetric.
use vstd::prelude::*;
use crate::bitlemmas::{lemma_has_bit_or, lemma_has_bit_single, lemma_has_bit_zero};
use crate::helpers::has_bit;
use crate::runtime_calculated_constants::{
    step_sq, steps_left, ray, lemma_step_sq, dir_dr, dir_df, bishop_rays, rook_rays, inner_ray,
    bishop_mask, rook_mask,
};
use crate::bitlemmas::lemma_has_bit_and;

verus! {

/// The square `k` steps from `s` along direction `d`, if still on the board.
pub open spec fn walk(s: int, d: int, k: nat) -> Option<int>
    decreases k,
{
    if k == 0 {
        if 0 <= s < 64 {
            Some(s)
        } else {
            None
        }
    } else {
        match walk(s, d, (k - 1) as nat) {
            Some(p) => step_sq(p, d),
            None => None,
        }
    }
}

/// `t` lies `k` steps from `s` along `d` and no square strictly between them
/// is in `block`.
pub open spec fn reaches_in(s: int, block: u64, d: int, t: int, k: nat) -> bool {
    &&& k >= 1
    &&& walk(s, d, k) == Some(t)
    &&& forall|j: nat| 1 <= j < k ==> !has_bit(block, #[trigger] walk(s, d, j)->0)
}

/// A slider on `s` moving along `d` reaches `t` past no square of `block`.
pub open spec fn reaches(s: int, block: u64, d: int, t: int) -> bool {
    exists|k: nat| reaches_in(s, block, d, t, k)
}

/// The direction opposite to `d`.
pub open spec fn opposite(d: int) -> int {
    if d == 0 {
        3
    } else if d == 3 {
        0
    } else if d == 1 {
        2
    } else if d == 2 {
        1
    } else if d == 4 {
        5
    } else if d == 5 {
        4
    } else if d == 6 {
        7
    } else {
        6
    }
}

proof fn lemma_step_back(p: int, d: int)
    requires
        0 <= d < 8,
        step_sq(p, d) is Some,
    ensures
        step_sq(step_sq(p, d)->0, opposite(d)) == Some(p),
{
    lemma_step_sq(p, d);
    let n = step_sq(p, d)->0;
    assert(p / 8 * 8 + p % 8 == p) by (nonlinear_arith);
}

/// Walking `k + 1` steps is one step then `k` steps.
proof fn lemma_walk_shift(s: int, d: int, k: nat)
    requires
        0 <= d < 8,
        0 <= s < 64,
    ensures
        walk(s, d, k + 1) == (match step_sq(s, d) {
            Some(n) => walk(n, d, k),
            None => None,
        }),
    decreases k,
{
    if k == 0 {
        if step_sq(s, d) is Some {
            lemma_step_sq(s, d);
        }
    } else {
        lemma_walk_shift(s, d, (k - 1) as nat);
        if step_sq(s, d) is Some {
            lemma_step_sq(s, d);
        }
        lemma_walk_none(s, d, k);
    }
}

/// Once a walk leaves the board it stays off it.
proof fn lemma_walk_none(s: int, d: int, k: nat)
    ensures
        walk(s, d, k) is None ==> walk(s, d, k + 1) is None,
{
}

/// Walking `j + m` steps is walking `j` steps and then `m` more.
proof fn lemma_walk_compose(s: int, d: int, j: nat, m: nat)
    requires
        0 <= d < 8,
        walk(s, d, j) is Some,
    ensures
        walk(s, d, j + m) == walk(walk(s, d, j)->0, d, m),
    decreases m,
{
    lemma_walk_on_board(s, d, j);
    if m > 0 {
        lemma_walk_compose(s, d, j, (m - 1) as nat);
        assert(walk(s, d, j + m) == match walk(s, d, (j + m - 1) as nat) {
            Some(p) => step_sq(p, d),
            None => None,
        });
        assert((j + m - 1) as nat == j + (m - 1) as nat);
    }
}

proof fn lemma_walk_on_board(s: int, d: int, k: nat)
    requires
        0 <= d < 8,
    ensures
        walk(s, d, k) matches Some(t) ==> 0 <= t < 64,
    decreases k,
{
    if k > 0 {
        lemma_walk_on_board(s, d, (k - 1) as nat);
        if let Some(p) = walk(s, d, (k - 1) as nat) {
            if step_sq(p, d) is Some {
                lemma_step_sq(p, d);
            }
        }
    }
}

/// Walking back from the end of a walk returns to its start.
proof fn lemma_walk_reverse(s: int, d: int, k: nat, t: int)
    requires
        0 <= d < 8,
        walk(s, d, k) == Some(t),
    ensures
        walk(t, opposite(d), k) == Some(s),
    decreases k,
{
    lemma_walk_on_board(s, d, k);
    if k == 0 {
    } else {
        let p = walk(s, d, (k - 1) as nat)->0;
        lemma_walk_on_board(s, d, (k - 1) as nat);
        lemma_walk_reverse(s, d, (k - 1) as nat, p);
        lemma_step_back(p, d);
        assert(0 <= opposite(d) < 8);
        lemma_walk_shift(t, opposite(d), (k - 1) as nat);
    }
}

/// The ray of a slider holds exactly the squares it reaches.
pub proof fn lemma_ray_reaches(s: int, block: u64, d: int, t: int)
    requires
        0 <= s < 64,
        0 <= d < 8,
    ensures
        has_bit(ray(s, block, d), t) == reaches(s, block, d, t),
    decreases steps_left(s, d),
{
    match step_sq(s, d) {
        None => {
            lemma_has_bit_zero(t);
            if reaches(s, block, d, t) {
                let k = choose|k: nat| reaches_in(s, block, d, t, k);
                lemma_walk_shift(s, d, (k - 1) as nat);
            }
        },
        Some(n) => {
            lemma_step_sq(s, d);
            let rest: u64 = if has_bit(block, n) {
                0
            } else {
                ray(n, block, d)
            };
            assert(ray(s, block, d) == (1u64 << (n as u64)) | rest);
            lemma_has_bit_or(1u64 << (n as u64), rest, t);
            lemma_has_bit_single(n as u64, t);
            lemma_has_bit_zero(t);
            lemma_ray_reaches(n, block, d, t);
            lemma_walk_shift(s, d, 0);
            if has_bit(ray(s, block, d), t) {
                if t == n {
                    assert(reaches_in(s, block, d, t, 1));
                } else {
                    assert(!has_bit(block, n));
                    let k = choose|k: nat| reaches_in(n, block, d, t, k);
                    lemma_walk_shift(s, d, k);
                    assert forall|j: nat| 1 <= j < k + 1 implies !has_bit(
                        block,
                        #[trigger] walk(s, d, j)->0,
                    ) by {
                        lemma_walk_shift(s, d, (j - 1) as nat);
                        if j > 1 {
                            assert(walk(n, d, (j - 1) as nat) == walk(s, d, j));
                        }
                    }
                    assert(reaches_in(s, block, d, t, k + 1));
                }
            }
            if reaches(s, block, d, t) {
                let k = choose|k: nat| reaches_in(s, block, d, t, k);
                if k > 1 {
                    lemma_walk_shift(s, d, (k - 1) as nat);
                    assert(!has_bit(block, walk(s, d, 1)->0));
                    assert forall|j: nat| 1 <= j < (k - 1) as nat implies !has_bit(
                        block,
                        #[trigger] walk(n, d, j)->0,
                    ) by {
                        lemma_walk_shift(s, d, j);
                        assert(walk(s, d, j + 1) == walk(n, d, j));
                        assert(!has_bit(block, walk(s, d, j + 1)->0));
                    }
                    assert(reaches_in(n, block, d, t, (k - 1) as nat));
                } else {
                    assert(walk(s, d, 1) == step_sq(s, d));
                }
            }
        },
    }
}

/// Reaching is symmetric: `s` reaches `t` along `d` exactly when `t`
/// reaches `s` along the opposite direction.
pub proof fn lemma_reaches_symmetric(s: int, block: u64, d: int, t: int)
    requires
        0 <= d < 8,
        reaches(s, block, d, t),
    ensures
        reaches(t, block, opposite(d), s),
{
    let k = choose|k: nat| reaches_in(s, block, d, t, k);
    lemma_walk_reverse(s, d, k, t);
    let e = opposite(d);
    assert forall|j: nat| 1 <= j < k implies !has_bit(block, #[trigger] walk(t, e, j)->0) by {
        let i = (k - j) as nat;
        assert(1 <= i < k);
        assert(!has_bit(block, walk(s, d, i)->0));
        lemma_walk_exists_prefix(s, d, i, k);
        let q = walk(s, d, i)->0;
        lemma_walk_compose(s, d, i, j);
        assert(walk(s, d, i + j) == Some(t));
        lemma_walk_reverse(q, d, j, t);
    }
    assert(reaches_in(t, block, e, s, k));
}

/// A walk that is on the board after `k` steps was on it after every fewer step.
proof fn lemma_walk_exists_prefix(s: int, d: int, i: nat, k: nat)
    requires
        i <= k,
        walk(s, d, k) is Some,
    ensures
        walk(s, d, i) is Some,
    decreases k - i,
{
    if i < k {
        lemma_walk_exists_prefix(s, d, (i + 1) as nat, k);
    }
}

/// A bishop on `s` attacks `t` exactly when a bishop on `t` attacks `s`.
pub proof fn lemma_bishop_rays_symmetric(s: int, t: int, block: u64)
    requires
        0 <= s < 64,
        0 <= t < 64,
    ensures
        has_bit(bishop_rays(s, block), t) == has_bit(bishop_rays(t, block), s),
{
    lemma_rays_symmetric_dirs(s, t, block, 0, 1, 2, 3);
}

/// A rook on `s` attacks `t` exactly when a rook on `t` attacks `s`.
pub proof fn lemma_rook_rays_symmetric(s: int, t: int, block: u64)
    requires
        0 <= s < 64,
        0 <= t < 64,
    ensures
        has_bit(rook_rays(s, block), t) == has_bit(rook_rays(t, block), s),
{
    lemma_rays_symmetric_dirs(s, t, block, 4, 5, 6, 7);
}

proof fn lemma_rays_symmetric_dirs(s: int, t: int, block: u64, a: int, b: int, c: int, e: int)
    requires
        0 <= s < 64,
        0 <= t < 64,
        (a == 0 && b == 1 && c == 2 && e == 3) || (a == 4 && b == 5 && c == 6 && e == 7),
    ensures
        has_bit(ray(s, block, a) | ray(s, block, b) | ray(s, block, c) | ray(s, block, e), t)
            == has_bit(ray(t, block, a) | ray(t, block, b) | ray(t, block, c) | ray(t, block, e), s),
{
    lemma_has_bit_or(ray(s, block, a) | ray(s, block, b) | ray(s, block, c), ray(s, block, e), t);
    lemma_has_bit_or(ray(s, block, a) | ray(s, block, b), ray(s, block, c), t);
    lemma_has_bit_or(ray(s, block, a), ray(s, block, b), t);
    lemma_has_bit_or(ray(t, block, a) | ray(t, block, b) | ray(t, block, c), ray(t, block, e), s);
    lemma_has_bit_or(ray(t, block, a) | ray(t, block, b), ray(t, block, c), s);
    lemma_has_bit_or(ray(t, block, a), ray(t, block, b), s);
    lemma_ray_reaches(s, block, a, t);
    lemma_ray_reaches(s, block, b, t);
    lemma_ray_reaches(s, block, c, t);
    lemma_ray_reaches(s, block, e, t);
    lemma_ray_reaches(t, block, a, s);
    lemma_ray_reaches(t, block, b, s);
    lemma_ray_reaches(t, block, c, s);
    lemma_ray_reaches(t, block, e, s);
    if reaches(s, block, a, t) {
        lemma_reaches_symmetric(s, block, a, t);
    }
    if reaches(s, block, b, t) {
        lemma_reaches_symmetric(s, block, b, t);
    }
    if reaches(s, block, c, t) {
        lemma_reaches_symmetric(s, block, c, t);
    }
    if reaches(s, block, e, t) {
        lemma_reaches_symmetric(s, block, e, t);
    }
    if reaches(t, block, a, s) {
        lemma_reaches_symmetric(t, block, a, s);
    }
    if reaches(t, block, b, s) {
        lemma_reaches_symmetric(t, block, b, s);
    }
    if reaches(t, block, c, s) {
        lemma_reaches_symmetric(t, block, c, s);
    }
    if reaches(t, block, e, s) {
        lemma_reaches_symmetric(t, block, e, s);
    }
}

/// The squares of `inner_ray(s, d)`: the next square along `d` when there
/// is one beyond it, and the inner squares from there.
proof fn lemma_inner_ray_bits(s: int, d: int, t: int)
    requires
        0 <= d < 8,
        step_sq(s, d) is Some,
    ensures
        ({
            let n = step_sq(s, d)->0;
            has_bit(inner_ray(s, d), t) == (step_sq(n, d) is Some && (t == n || has_bit(inner_ray(n, d), t)))
        }),
{
    lemma_step_sq(s, d);
    let n = step_sq(s, d)->0;
    if step_sq(n, d) is Some {
        lemma_has_bit_or(1u64 << (n as u64), inner_ray(n, d), t);
        lemma_has_bit_single(n as u64, t);
    } else {
        lemma_has_bit_zero(t);
    }
}

/// A ray depends only on the occupancy of its inner squares: two boards
/// that agree there give the same ray.
pub proof fn lemma_ray_inner_only(s: int, d: int, b1: u64, b2: u64)
    requires
        0 <= d < 8,
        forall|t: int| #[trigger] has_bit(inner_ray(s, d), t) ==> has_bit(b1, t) == has_bit(b2, t),
    ensures
        ray(s, b1, d) == ray(s, b2, d),
    decreases steps_left(s, d),
{
    match step_sq(s, d) {
        None => {},
        Some(n) => {
            lemma_step_sq(s, d);
            if step_sq(n, d) is Some {
                lemma_inner_ray_bits(s, d, n);
                assert(has_bit(inner_ray(s, d), n));
                assert forall|t: int| #[trigger] has_bit(inner_ray(n, d), t) implies has_bit(b1, t) == has_bit(b2, t) by {
                    lemma_inner_ray_bits(s, d, t);
                    assert(has_bit(inner_ray(s, d), t));
                }
                lemma_ray_inner_only(n, d, b1, b2);
            } else {
                assert(ray(n, b1, d) == 0u64);
                assert(ray(n, b2, d) == 0u64);
            }
        },
    }
}

/// The inner squares of direction `d` from `s` are among those of a mask
/// made of `d`'s inner squares and others.
proof fn lemma_mask_covers(m: u64, s: int, d: int, occ: u64)
    requires
        forall|t: int| #[trigger] has_bit(inner_ray(s, d), t) ==> has_bit(m, t),
    ensures
        forall|t: int| #[trigger] has_bit(inner_ray(s, d), t) ==> has_bit(occ & m, t) == has_bit(occ, t),
{
    assert forall|t: int| #[trigger] has_bit(inner_ray(s, d), t) implies has_bit(occ & m, t) == has_bit(occ, t) by {
        lemma_has_bit_and(occ, m, t);
    }
}

/// A bishop's attacks depend only on the occupancy inside its relevance
/// mask: `bishop_rays(s, occ) == bishop_rays(s, occ & bishop_mask(s))`.
pub proof fn lemma_bishop_mask_relevance(s: int, occ: u64)
    ensures
        bishop_rays(s, occ) == bishop_rays(s, occ & bishop_mask(s)),
{
    let m = bishop_mask(s);
    assert forall|t: int| has_bit(inner_ray(s, 0), t) || has_bit(inner_ray(s, 1), t) || has_bit(inner_ray(s, 2), t)
        || has_bit(inner_ray(s, 3), t) implies has_bit(m, t) by {
        lemma_has_bit_or(inner_ray(s, 0), inner_ray(s, 1), t);
        lemma_has_bit_or(inner_ray(s, 0) | inner_ray(s, 1), inner_ray(s, 2), t);
        lemma_has_bit_or(inner_ray(s, 0) | inner_ray(s, 1) | inner_ray(s, 2), inner_ray(s, 3), t);
    }
    lemma_mask_covers(m, s, 0, occ);
    lemma_mask_covers(m, s, 1, occ);
    lemma_mask_covers(m, s, 2, occ);
    lemma_mask_covers(m, s, 3, occ);
    lemma_ray_inner_only(s, 0, occ, occ & m);
    lemma_ray_inner_only(s, 1, occ, occ & m);
    lemma_ray_inner_only(s, 2, occ, occ & m);
    lemma_ray_inner_only(s, 3, occ, occ & m);
}

/// A rook's attacks depend only on the occupancy inside its relevance
/// mask: `rook_rays(s, occ) == rook_rays(s, occ & rook_mask(s))`.
pub proof fn lemma_rook_mask_relevance(s: int, occ: u64)
    ensures
        rook_rays(s, occ) == rook_rays(s, occ & rook_mask(s)),
{
    let m = rook_mask(s);
    assert forall|t: int| has_bit(inner_ray(s, 4), t) || has_bit(inner_ray(s, 5), t) || has_bit(inner_ray(s, 6), t)
        || has_bit(inner_ray(s, 7), t) implies has_bit(m, t) by {
        lemma_has_bit_or(inner_ray(s, 4), inner_ray(s, 5), t);
        lemma_has_bit_or(inner_ray(s, 4) | inner_ray(s, 5), inner_ray(s, 6), t);
        lemma_has_bit_or(inner_ray(s, 4) | inner_ray(s, 5) | inner_ray(s, 6), inner_ray(s, 7), t);
    }
    lemma_mask_covers(m, s, 4, occ);
    lemma_mask_covers(m, s, 5, occ);
    lemma_mask_covers(m, s, 6, occ);
    lemma_mask_covers(m, s, 7, occ);
    lemma_ray_inner_only(s, 4, occ, occ & m);
    lemma_ray_inner_only(s, 5, occ, occ & m);
    lemma_ray_inner_only(s, 6, occ, occ & m);
    lemma_ray_inner_only(s, 7, occ, occ & m);
}

} // verus!
