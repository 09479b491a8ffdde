//! The branch-and-bound search engine.
//!
//! `knapsack` walks the inclusion/exclusion decision tree depth first,
//! pruning the inclusion branch as soon as the running sum would exceed the
//! capacity limit; `search` runs it over a whole item sequence. The contract
//! pins the result completely: the returned sum is the greatest subset sum
//! within the limit, and the returned mask is the least mask achieving it.

use vstd::prelude::*;
use vstd::arithmetic::power2::{
    pow2, lemma_pow2_unfold, lemma_pow2_pos, lemma_pow2_strictly_increases, lemma2_to64,
    lemma2_to64_rest,
};
use vstd::bits::lemma_u64_shl_is_mul;
use crate::model::{
    seq_sum, masked_sum, suffix_of, lemma_seq_sum_nonneg, lemma_masked_sum_bounds,
    lemma_seq_sum_first, lemma_masked_sum_skip_first, lemma_masked_sum_take_first,
    lemma_mask_split,
};

verus! {

/// What `search` promises of its result: the mask is in range, its selection
/// sums exactly to `best_sum`, that sum fits the limit, no in-range mask
/// within the limit beats it, and among the masks achieving it the returned
/// one is least. The last clause makes the result a function of the inputs.
pub open spec fn search_post(items: Seq<u64>, limit: u64, best_sum: u64, best_mask: u64) -> bool {
    &&& (best_mask as nat) < pow2(items.len())
    &&& best_sum == masked_sum(items, best_mask as nat)
    &&& best_sum <= limit
    &&& forall|m: nat|
        m < pow2(items.len()) && masked_sum(items, m) <= limit ==> masked_sum(items, m)
            <= best_sum
    &&& forall|m: nat|
        m < pow2(items.len()) && masked_sum(items, m) == best_sum ==> best_mask as nat <= m
}

/// Recursive knapsack calculation routine.
///   `depth`: how many items have been decided so far (the recursion depth)
///   `sum`: the sum of the items taken among those decided
///   `mask`: the bit mask of the items taken
/// Explores every way of extending the current partial selection over
/// `items[depth..]`, keeping whichever completion reaches the greatest sum
/// within `limit` (the exclusion branch on ties, which yields the least mask).
pub fn knapsack(limit: u64, items: &Vec<u64>, depth: usize, sum: &mut u64, mask: &mut u64)
    requires
        depth <= items@.len(),
        *old(sum) <= limit,
        *old(sum) + seq_sum(suffix_of(items@, depth as int)) <= u64::MAX,
        (*old(mask) as nat + 1) * pow2((items@.len() - depth) as nat) <= pow2(64),
    ensures
        *final(sum) <= limit,
        *old(sum) <= *final(sum),
        exists|m: nat|
            m < pow2((items@.len() - depth) as nat) && *final(mask) as nat == (*old(mask) as nat)
                * pow2((items@.len() - depth) as nat) + m && *final(sum) == *old(sum) + masked_sum(
                suffix_of(items@, depth as int),
                m,
            ),
        forall|m: nat|
            m < pow2((items@.len() - depth) as nat)
                && *old(sum) + masked_sum(suffix_of(items@, depth as int), m) <= limit
                ==> *old(sum) + masked_sum(suffix_of(items@, depth as int), m) <= *final(sum),
        forall|m: nat|
            m < pow2((items@.len() - depth) as nat)
                && *old(sum) + masked_sum(suffix_of(items@, depth as int), m) == *final(sum)
                ==> *final(mask) as nat
                    <= (*old(mask) as nat) * pow2((items@.len() - depth) as nat) + m,
    decreases items@.len() - depth,
{
    let ghost n: nat = (items@.len() - depth) as nat;
    let ghost sfx = suffix_of(items@, depth as int);
    let ghost m0: nat = *mask as nat;
    let ghost s0: int = *sum as int;

    if depth == items.len() {
        proof {
            lemma2_to64();
            assert(sfx =~= Seq::<u64>::empty());
            assert(masked_sum(suffix_of(items@, depth as int), 0) == 0);
            assert(pow2((items@.len() - depth) as nat) == 1);
            assert(m0 * pow2((items@.len() - depth) as nat) == m0) by (nonlinear_arith)
                requires
                    pow2((items@.len() - depth) as nat) == 1,
            ;
        }
        return;
    }
    let ghost sfx1 = suffix_of(items@, depth as int + 1);

    proof {
        lemma2_to64();
        lemma2_to64_rest();
        lemma_pow2_unfold(n);
        lemma_pow2_pos((n - 1) as nat);
        assert(sfx.drop_first() =~= sfx1);
        assert(sfx[0] == items@[depth as int]);
        lemma_seq_sum_first(sfx);
        lemma_seq_sum_nonneg(sfx1);
        assert((2 * m0) * pow2((n - 1) as nat) == m0 * pow2(n) && (2 * m0 + 1) * pow2(
            (n - 1) as nat,
        ) == m0 * pow2(n) + pow2((n - 1) as nat) && (2 * m0 + 2) * pow2((n - 1) as nat) == (m0 + 1)
            * pow2(n) && (2 * m0 + 1) * pow2((n - 1) as nat) <= pow2(64) && (2 * m0 + 2) * pow2(
            (n - 1) as nat,
        ) <= pow2(64) && 2 * m0 + 2 <= pow2(64)) by (nonlinear_arith)
            requires
                pow2(n) == 2 * pow2((n - 1) as nat),
                pow2((n - 1) as nat) >= 1,
                (m0 + 1) * pow2(n) <= pow2(64),
        ;
        lemma_u64_shl_is_mul(*mask, 1);
    }
    *mask = *mask << 1;
    let mut sum_b: u64 = *sum + items[depth];
    proof {
        assert(*mask as nat == 2 * m0);
        let shifted: u64 = *mask;
        assert(shifted % 2 == 0 ==> (shifted | 0x1) == shifted + 1) by (bit_vector);
    }
    let mut mask_b: u64 = *mask | 0x1;
    let ghost sum_b0: int = sum_b as int;

    knapsack(limit, items, depth + 1, sum, mask);
    let ghost sum_ex: int = *sum as int;
    let ghost mask_ex: nat = *mask as nat;
    let ghost m_ex: nat = choose|m: nat|
        m < pow2((n - 1) as nat) && mask_ex == (2 * m0) * pow2((n - 1) as nat) + m && sum_ex == s0
            + masked_sum(sfx1, m);
    proof {
        lemma_masked_sum_skip_first(sfx, m_ex);
    }

    if sum_b <= limit {
        knapsack(limit, items, depth + 1, &mut sum_b, &mut mask_b);
        let ghost sum_in: int = sum_b as int;
        let ghost mask_in: nat = mask_b as nat;
        let ghost m_in: nat = choose|m: nat|
            m < pow2((n - 1) as nat) && mask_in == (2 * m0 + 1) * pow2((n - 1) as nat) + m
                && sum_in == sum_b0 + masked_sum(sfx1, m);
        proof {
            lemma_masked_sum_take_first(sfx, m_in);
        }
        if *sum < sum_b {
            *sum = sum_b;
            *mask = mask_b;
            proof {
                // The inclusion branch won: its completion is the witness.
                assert(masked_sum(sfx, pow2((n - 1) as nat) + m_in) == sfx[0] + masked_sum(
                    sfx1,
                    m_in,
                ));
                assert(pow2((n - 1) as nat) + m_in < pow2(n));
                assert(*mask as nat == m0 * pow2(n) + (pow2((n - 1) as nat) + m_in));
                assert forall|m: nat|
                    m < pow2(n) && s0 + masked_sum(sfx, m) <= limit implies s0 + masked_sum(sfx, m)
                    <= *sum as int by {
                    lemma_mask_split(m, n);
                    let hi = m / pow2((n - 1) as nat);
                    let lo = m % pow2((n - 1) as nat);
                    if hi == 0 {
                        lemma_masked_sum_skip_first(sfx, m);
                        assert(s0 + masked_sum(sfx1, m) <= sum_ex);
                    } else {
                        lemma_masked_sum_take_first(sfx, lo);
                        assert(sum_b0 + masked_sum(sfx1, lo) <= sum_in);
                    }
                }
                assert forall|m: nat|
                    m < pow2(n) && s0 + masked_sum(sfx, m) == *sum as int implies *mask as nat <= m0
                    * pow2(n) + m by {
                    lemma_mask_split(m, n);
                    let hi = m / pow2((n - 1) as nat);
                    let lo = m % pow2((n - 1) as nat);
                    if hi == 0 {
                        // An exclusion completion never reaches the inclusion
                        // branch's strictly greater sum.
                        lemma_masked_sum_skip_first(sfx, m);
                        assert(s0 + masked_sum(sfx1, m) <= sum_ex);
                        assert(false);
                    } else {
                        lemma_masked_sum_take_first(sfx, lo);
                        assert(sum_b0 + masked_sum(sfx1, lo) == sum_in);
                        assert(mask_in <= (2 * m0 + 1) * pow2((n - 1) as nat) + lo);
                    }
                }
            }
        } else {
            proof {
                // The exclusion branch stands: its completion is the witness.
                assert(*mask as nat == m0 * pow2(n) + m_ex);
                assert(masked_sum(sfx, m_ex) == masked_sum(sfx1, m_ex));
                assert(m_ex < pow2(n));
                assert forall|m: nat|
                    m < pow2(n) && s0 + masked_sum(sfx, m) <= limit implies s0 + masked_sum(sfx, m)
                    <= *sum as int by {
                    lemma_mask_split(m, n);
                    let hi = m / pow2((n - 1) as nat);
                    let lo = m % pow2((n - 1) as nat);
                    if hi == 0 {
                        lemma_masked_sum_skip_first(sfx, m);
                        assert(s0 + masked_sum(sfx1, m) <= sum_ex);
                    } else {
                        lemma_masked_sum_take_first(sfx, lo);
                        assert(sum_b0 + masked_sum(sfx1, lo) <= sum_in);
                    }
                }
                assert forall|m: nat|
                    m < pow2(n) && s0 + masked_sum(sfx, m) == *sum as int implies *mask as nat <= m0
                    * pow2(n) + m by {
                    lemma_mask_split(m, n);
                    let hi = m / pow2((n - 1) as nat);
                    let lo = m % pow2((n - 1) as nat);
                    if hi == 0 {
                        lemma_masked_sum_skip_first(sfx, m);
                        assert(mask_ex <= (2 * m0) * pow2((n - 1) as nat) + m);
                    } else {
                        // Any inclusion mask lies at or above pow2(n - 1),
                        // while the kept exclusion mask lies below it.
                        assert(m >= pow2((n - 1) as nat));
                        assert(mask_ex == m0 * pow2(n) + m_ex);
                    }
                }
            }
        }
    } else {
        proof {
            // The inclusion branch was pruned: no inclusion completion fits
            // the limit, so the exclusion completion is the witness.
            assert(*mask as nat == m0 * pow2(n) + m_ex);
            assert(masked_sum(sfx, m_ex) == masked_sum(sfx1, m_ex));
            assert(m_ex < pow2(n));
            assert forall|m: nat|
                m < pow2(n) && s0 + masked_sum(sfx, m) <= limit implies s0 + masked_sum(sfx, m)
                <= *sum as int by {
                lemma_mask_split(m, n);
                let hi = m / pow2((n - 1) as nat);
                let lo = m % pow2((n - 1) as nat);
                if hi == 0 {
                    lemma_masked_sum_skip_first(sfx, m);
                    assert(s0 + masked_sum(sfx1, m) <= sum_ex);
                } else {
                    lemma_masked_sum_take_first(sfx, lo);
                    lemma_masked_sum_bounds(sfx1, lo);
                    assert(s0 + masked_sum(sfx, m) >= sum_b0);
                    assert(false);
                }
            }
            assert forall|m: nat|
                m < pow2(n) && s0 + masked_sum(sfx, m) == *sum as int implies *mask as nat <= m0
                * pow2(n) + m by {
                lemma_mask_split(m, n);
                let hi = m / pow2((n - 1) as nat);
                let lo = m % pow2((n - 1) as nat);
                if hi == 0 {
                    lemma_masked_sum_skip_first(sfx, m);
                    assert(mask_ex <= (2 * m0) * pow2((n - 1) as nat) + m);
                } else {
                    lemma_masked_sum_take_first(sfx, lo);
                    lemma_masked_sum_bounds(sfx1, lo);
                    assert(s0 + masked_sum(sfx, m) >= sum_b0);
                    assert(false);
                }
            }
        }
    }
}

/// Finds the best achievable selection: the greatest subset sum of `items`
/// that does not exceed `limit`, with the (least) mask that reaches it.
/// Works for any item order; sorting ascending beforehand only speeds the
/// pruning up.
pub fn search(limit: u64, items: &Vec<u64>) -> (r: (u64, u64))
    requires
        items@.len() <= 64,
        seq_sum(items@) <= u64::MAX,
    ensures
        search_post(items@, limit, r.0, r.1),
{
    let mut sum: u64 = 0;
    let mut mask: u64 = 0;
    proof {
        if items@.len() < 64 {
            lemma_pow2_strictly_increases(items@.len(), 64);
        }
        assert(suffix_of(items@, 0) =~= items@);
        assert((0 + 1) * pow2((items@.len() - 0) as nat) == pow2(
            (items@.len() - 0) as nat,
        )) by (nonlinear_arith);
    }
    knapsack(limit, items, 0, &mut sum, &mut mask);
    proof {
        assert((0 as nat) * pow2((items@.len() - 0) as nat) == 0) by (nonlinear_arith);
        let m = choose|m: nat|
            m < pow2((items@.len() - 0) as nat) && mask as nat == (0 as nat) * pow2(
                (items@.len() - 0) as nat,
            ) + m && sum as int == 0 + masked_sum(suffix_of(items@, 0), m);
        assert(mask as nat == m);
        assert(sum == masked_sum(items@, mask as nat));
        assert forall|m2: nat|
            m2 < pow2(items@.len()) && masked_sum(items@, m2) <= limit implies masked_sum(
            items@,
            m2,
        ) <= sum by {
            assert(0 + masked_sum(suffix_of(items@, 0), m2) <= sum as int);
        }
        assert forall|m2: nat|
            m2 < pow2(items@.len()) && masked_sum(items@, m2) == sum implies mask as nat <= m2 by {
            assert(mask as nat <= (0 as nat) * pow2((items@.len() - 0) as nat) + m2);
        }
    }
    (sum, mask)
}

} // verus!
