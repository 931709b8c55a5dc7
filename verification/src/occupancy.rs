//! Enumerating the subsets of an attack mask.
use vstd::prelude::*;
use crate::helpers::{pop_bit, get_lsb_index, lsb, clear_lsb, popcount, lemma_lsb, lemma_popcount_clear_lsb};

verus! {

/// The occupancy that places the bits of `index` (lowest first) on the first
/// `n` squares of `mask`, taken in ascending order.
pub open spec fn spread(index: u64, mask: u64, n: nat) -> u64
    decreases n,
{
    if n == 0 || mask == 0 {
        0
    } else {
        (if index & 1u64 == 1u64 {
            1u64 << (lsb(mask) as u64)
        } else {
            0u64
        }) | spread(index >> 1u64, clear_lsb(mask), (n - 1) as nat)
    }
}

/// The `index`-th subset of the first `bits_in_mask` squares of `attack_mask`:
/// bit `k` of `index` decides whether the `k`-th lowest square of the mask is
/// occupied.
pub fn set_occupancies(index: usize, bits_in_mask: usize, attack_mask: u64) -> (r: u64)
    requires
        bits_in_mask <= popcount(attack_mask),
    ensures
        r == spread(index as u64, attack_mask, bits_in_mask as nat),
{
    let ghost goal = spread(index as u64, attack_mask, bits_in_mask as nat);
    let idx = index as u64;
    let mut occupancy: u64 = 0;
    let mut mask = attack_mask;
    let mut count: usize = 0;
    let mut rest: u64 = idx;
    proof {
        crate::helpers::lemma_popcount_bound(attack_mask);
        crate::bitlemmas::lemma_bit_identities();

    }
    while count < bits_in_mask
        invariant
            count <= bits_in_mask,
            bits_in_mask <= 64,
            bits_in_mask - count <= popcount(mask),
            count < 64 ==> rest == idx >> (count as u64),
            idx == index as u64,
            goal == spread(index as u64, attack_mask, bits_in_mask as nat),
            occupancy | spread(rest, mask, (bits_in_mask - count) as nat) == goal,
        decreases bits_in_mask - count,
    {
        let square = match get_lsb_index(mask) {
            Some(v) => v,
            None => {
                assert(false);
                0
            },
        };
        proof {
            lemma_lsb(mask);
            lemma_popcount_clear_lsb(mask);
        }
        let ghost old_mask = mask;
        let ghost old_occ = occupancy;
        let ghost old_rest = rest;
        mask = pop_bit(mask, square);
        let c = count as u64;
        let bit_set = (idx & (1u64 << c)) != 0;
        proof {
            assert(c < 64 && old_rest == idx >> c ==> ((idx & (1u64 << c)) != 0) == (old_rest
                & 1u64 == 1u64)) by (bit_vector);
            assert(c < 63 && old_rest == idx >> c ==> old_rest >> 1u64 == idx >> ((c + 1) as u64))
                by (bit_vector);
            let tail = spread(old_rest >> 1u64, mask, (bits_in_mask - count - 1) as nat);
            let head: u64 = if old_rest & 1u64 == 1u64 {
                1u64 << (lsb(old_mask) as u64)
            } else {
                0u64
            };
            assert(spread(old_rest, old_mask, (bits_in_mask - count) as nat) == head | tail);
            let h = 1u64 << (square as u64);
            crate::bitlemmas::lemma_bit_identities();

        }
        if bit_set {
            occupancy |= 1u64 << (square as u64);
        }
        rest = rest >> 1u64;
        count += 1;
    }
    proof {
        crate::bitlemmas::lemma_bit_identities();
    }
    occupancy
}

} // verus!
