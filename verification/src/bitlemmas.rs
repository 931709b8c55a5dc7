//! Facts about single bits of bitboards, proved with the bit-vector solver.
use vstd::prelude::*;
use crate::helpers::has_bit;

verus! {

pub proof fn lemma_has_bit_or(a: u64, b: u64, t: int)
    ensures
        has_bit(a | b, t) == (has_bit(a, t) || has_bit(b, t)),
{
    if 0 <= t < 64 {
        let tt = t as u64;
        assert(((a | b) >> tt) & 1u64 == 1u64 <==> ((a >> tt) & 1u64 == 1u64 || (b >> tt) & 1u64
            == 1u64)) by (bit_vector);
    }
}

pub proof fn lemma_has_bit_and(a: u64, b: u64, t: int)
    ensures
        has_bit(a & b, t) == (has_bit(a, t) && has_bit(b, t)),
{
    if 0 <= t < 64 {
        let tt = t as u64;
        assert(((a & b) >> tt) & 1u64 == 1u64 <==> ((a >> tt) & 1u64 == 1u64 && (b >> tt) & 1u64
            == 1u64)) by (bit_vector);
    }
}

pub proof fn lemma_has_bit_not(a: u64, t: int)
    ensures
        0 <= t < 64 ==> has_bit(!a, t) == !has_bit(a, t),
{
    if 0 <= t < 64 {
        let tt = t as u64;
        assert(tt < 64 ==> (((!a) >> tt) & 1u64 == 1u64 <==> !((a >> tt) & 1u64 == 1u64)))
            by (bit_vector);
    }
}

pub proof fn lemma_has_bit_single(s: u64, t: int)
    requires
        s < 64,
    ensures
        has_bit(1u64 << s, t) == (t == s),
{
    if 0 <= t < 64 {
        let tt = t as u64;
        assert(s < 64 && tt < 64 ==> (((1u64 << s) >> tt) & 1u64 == 1u64 <==> tt == s))
            by (bit_vector);
    }
}

pub proof fn lemma_has_bit_zero(t: int)
    ensures
        !has_bit(0u64, t),
{
    if 0 <= t < 64 {
        let tt = t as u64;
        assert((0u64 >> tt) & 1u64 == 0u64) by (bit_vector);
    }
}

/// A bit of a single-square board shifted towards square 0 by `k`.
pub proof fn lemma_has_bit_single_shr(s: u64, k: u64, t: int)
    requires
        s < 64,
        k < 64,
    ensures
        has_bit((1u64 << s) >> k, t) == (0 <= t && t + k == s),
{
    if 0 <= t < 64 {
        let tt = t as u64;
        assert(s < 64 && k < 64 && tt < 64 ==> ((((1u64 << s) >> k) >> tt) & 1u64 == 1u64 <==> tt
            + k == s)) by (bit_vector);
    }
}

/// A bit of a single-square board shifted away from square 0 by `k`.
pub proof fn lemma_has_bit_single_shl(s: u64, k: u64, t: int)
    requires
        s < 64,
        k < 64,
    ensures
        has_bit((1u64 << s) << k, t) == (t < 64 && t == s + k),
{
    if 0 <= t < 64 {
        let tt = t as u64;
        assert(s < 64 && k < 64 && tt < 64 ==> ((((1u64 << s) << k) >> tt) & 1u64 == 1u64 <==> tt
            == s + k)) by (bit_vector);
    }
}

/// Two boards with the same squares are equal.
pub proof fn lemma_bits_ext(a: u64, b: u64)
    requires
        forall|t: int| 0 <= t < 64 ==> has_bit(a, t) == has_bit(b, t),
    ensures
        a == b,
{
    lemma_bits_ext_from(a, b, 0);
}

proof fn lemma_bits_ext_from(a: u64, b: u64, n: u64)
    requires
        n <= 64,
        forall|t: int| n <= t < 64 ==> has_bit(a, t) == has_bit(b, t),
        forall|t: int| 0 <= t < n ==> has_bit(a, t) == has_bit(b, t),
    ensures
        a >> n == b >> n,
        n == 0 ==> a == b,
    decreases 64 - n,
{
    if n < 64 {
        lemma_bits_ext_from(a, b, (n + 1) as u64);
        assert(has_bit(a, n as int) == has_bit(b, n as int));
        assert(n < 64 && (a >> ((n + 1) as u64)) == (b >> ((n + 1) as u64)) && ((a >> n) & 1u64
            == 1u64) == ((b >> n) & 1u64 == 1u64) ==> a >> n == b >> n) by (bit_vector);
    } else {
        assert(a >> 64u64 == 0u64 && b >> 64u64 == 0u64) by (bit_vector);
    }
    if n == 0 {
        assert(a >> 0u64 == a && b >> 0u64 == b) by (bit_vector);
    }
}

/// Identities of `|`, `^` and shifts used throughout: the empty board is
/// neutral, `|` and `^` regroup freely, and `^` undoes itself.
pub proof fn lemma_bit_identities()
    by (bit_vector)
    ensures
        forall|a: u64| #[trigger] (a ^ 0u64) == a,
        forall|a: u64| #[trigger] (a | 0u64) == a,
        forall|a: u64| #[trigger] (0u64 | a) == a,
        forall|a: u64| #[trigger] (a >> 0u64) == a,
        forall|a: u64, b: u64, c: u64| #[trigger] ((a ^ b) ^ c) == a ^ (b ^ c),
        forall|a: u64, b: u64, c: u64| #[trigger] (a | (b | c)) == (a | b) | c,
        forall|a: u64, b: u64| #[trigger] ((a ^ b) ^ b) == a,
{
}

} // verus!

verus! {

/// `&` does not depend on the order of its arguments.
pub proof fn lemma_bit_and_comm(a: u64, b: u64)
    ensures
        a & b == b & a,
{
    assert forall|t: int| 0 <= t < 64 implies has_bit(a & b, t) == has_bit(b & a, t) by {
        lemma_has_bit_and(a, b, t);
        lemma_has_bit_and(b, a, t);
    }
    lemma_bits_ext(a & b, b & a);
}

/// Two boards intersect exactly when some square is in both.
pub proof fn lemma_and_nonzero(a: u64, b: u64)
    ensures
        ((a & b) != 0) == (exists|s: int| 0 <= s < 64 && has_bit(a, s) && #[trigger] has_bit(b, s)),
{
    if a & b != 0 {
        if !(exists|s: int| 0 <= s < 64 && has_bit(a, s) && #[trigger] has_bit(b, s)) {
            assert forall|t: int| 0 <= t < 64 implies has_bit(a & b, t) == has_bit(0u64, t) by {
                lemma_has_bit_and(a, b, t);
                lemma_has_bit_zero(t);
            }
            lemma_bits_ext(a & b, 0u64);
        }
    } else {
        if exists|s: int| 0 <= s < 64 && has_bit(a, s) && #[trigger] has_bit(b, s) {
            let s = choose|s: int| 0 <= s < 64 && has_bit(a, s) && #[trigger] has_bit(b, s);
            lemma_has_bit_and(a, b, s);
            lemma_has_bit_zero(s);
        }
    }
}

} // verus!
