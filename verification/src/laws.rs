//! The library's general laws, each stated over every input the search
//! accepts and proved once and for all from the search's contract.

use vstd::prelude::*;
use crate::model::{
    masked_sum, sel_sum, mask_of_sel, sel_of_mask, lemma_mask_of_sel_bound,
    lemma_sel_sum_is_masked_sum, lemma_sel_of_mask_len, lemma_masked_sum_is_sel_sum,
    lemma_sel_sum_insert_false,
};
use crate::search::search_post;

verus! {

/// Optimality: no selection of items whose sum stays within the limit sums
/// to more than the search reports. `sel` marks an arbitrary subset, one
/// flag per item.
pub proof fn lemma_optimality(
    items: Seq<u64>,
    limit: u64,
    best_sum: u64,
    best_mask: u64,
    sel: Seq<bool>,
)
    requires
        search_post(items, limit, best_sum, best_mask),
        sel.len() == items.len(),
        sel_sum(items, sel) <= limit,
    ensures
        sel_sum(items, sel) <= best_sum,
{
    lemma_mask_of_sel_bound(sel);
    lemma_sel_sum_is_masked_sum(items, sel);
    assert(masked_sum(items, mask_of_sel(sel)) <= best_sum);
}

/// Mask consistency: the weights the reported mask selects sum exactly to
/// the reported sum, whether the mask is read as a number or bit by bit.
pub proof fn lemma_mask_consistency(items: Seq<u64>, limit: u64, best_sum: u64, best_mask: u64)
    requires
        search_post(items, limit, best_sum, best_mask),
    ensures
        masked_sum(items, best_mask as nat) == best_sum,
        sel_sum(items, sel_of_mask(best_mask as nat, items.len())) == best_sum,
{
    lemma_masked_sum_is_sel_sum(items, best_mask as nat);
}

/// Raising the limit never lowers the best sum.
pub proof fn lemma_limit_monotonic(
    items: Seq<u64>,
    limit1: u64,
    limit2: u64,
    sum1: u64,
    mask1: u64,
    sum2: u64,
    mask2: u64,
)
    requires
        limit1 <= limit2,
        search_post(items, limit1, sum1, mask1),
        search_post(items, limit2, sum2, mask2),
    ensures
        sum1 <= sum2,
{
    assert(masked_sum(items, mask1 as nat) <= limit2);
}

/// Removing an item never raises the best sum: whatever the smaller set
/// achieves, the larger set achieves by leaving the extra item out.
pub proof fn lemma_remove_item_monotonic(
    items: Seq<u64>,
    i: int,
    limit: u64,
    sum1: u64,
    mask1: u64,
    sum2: u64,
    mask2: u64,
)
    requires
        0 <= i < items.len(),
        search_post(items, limit, sum1, mask1),
        search_post(items.remove(i), limit, sum2, mask2),
    ensures
        sum2 <= sum1,
{
    let items2 = items.remove(i);
    let sel2 = sel_of_mask(mask2 as nat, items2.len());
    lemma_sel_of_mask_len(mask2 as nat, items2.len());
    lemma_masked_sum_is_sel_sum(items2, mask2 as nat);
    lemma_sel_sum_insert_false(items, sel2, i);
    let sel = sel2.insert(i, false);
    lemma_mask_of_sel_bound(sel);
    lemma_sel_sum_is_masked_sum(items, sel);
    assert(masked_sum(items, mask_of_sel(sel)) <= sum1);
}

/// Idempotence: the contract pins the result down, so any two results for
/// the same items and limit agree, sum and mask alike.
pub proof fn lemma_deterministic(
    items: Seq<u64>,
    limit: u64,
    sum1: u64,
    mask1: u64,
    sum2: u64,
    mask2: u64,
)
    requires
        search_post(items, limit, sum1, mask1),
        search_post(items, limit, sum2, mask2),
    ensures
        sum1 == sum2,
        mask1 == mask2,
{
    assert(masked_sum(items, mask1 as nat) <= sum2);
    assert(masked_sum(items, mask2 as nat) <= sum1);
    assert(mask1 as nat <= mask2 as nat);
    assert(mask2 as nat <= mask1 as nat);
}

} // verus!
