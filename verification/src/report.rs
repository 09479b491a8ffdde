//! What surrounds the search: sorting the items ascending before it runs
//! (which only helps the pruning, never the answer), and listing the items a
//! result mask selects, in the order a report prints them.

use vstd::prelude::*;
use vstd::seq_lib::to_multiset_update;
use vstd::multiset::group_multiset_axioms;
use vstd::seq_lib::group_to_multiset_ensures;
use crate::model::{seq_sum, masked_sum, lemma_seq_sum_first};

verus! {

/// Each item is at most the one after it.
pub open spec fn sorted_ascending(s: Seq<u64>) -> bool {
    forall|a: int, b: int| 0 <= a <= b < s.len() ==> s[a] <= s[b]
}

/// The weights `m` selects from `items`, listed from the last item toward
/// the first (bit 0 of `m` names the last item), so an ascending item list
/// comes out descending.
pub open spec fn selected_seq(items: Seq<u64>, m: nat) -> Seq<u64>
    decreases items.len(),
{
    if items.len() == 0 {
        Seq::empty()
    } else if m % 2 == 1 {
        seq![items.last()] + selected_seq(items.drop_last(), m / 2)
    } else {
        selected_seq(items.drop_last(), m / 2)
    }
}

/// The listed weights sum to exactly what the mask's selection sums to.
pub proof fn lemma_selected_seq_sum(items: Seq<u64>, m: nat)
    ensures
        seq_sum(selected_seq(items, m)) == masked_sum(items, m),
    decreases items.len(),
{
    if items.len() > 0 {
        lemma_selected_seq_sum(items.drop_last(), m / 2);
        if m % 2 == 1 {
            let rest = selected_seq(items.drop_last(), m / 2);
            let whole = seq![items.last()] + rest;
            assert(whole[0] == items.last());
            assert(whole.drop_first() =~= rest);
            lemma_seq_sum_first(whole);
        }
    }
}

/// Swapping two positions of a sequence rearranges it without changing what
/// it holds.
proof fn lemma_swap_preserves_multiset(s: Seq<u64>, i: int, j: int)
    requires
        0 <= i < s.len(),
        0 <= j < s.len(),
    ensures
        s.update(i, s[j]).update(j, s[i]).to_multiset() == s.to_multiset(),
{
    broadcast use to_multiset_update;
    broadcast use group_multiset_axioms;
    broadcast use group_to_multiset_ensures;

    if i != j {
        assert(s.update(i, s[j])[j] == s[j]);
        assert(s.contains(s[i]));
        assert(s.update(i, s[j]).update(j, s[i]).to_multiset() =~= s.to_multiset());
    } else {
        assert(s.update(i, s[j]).update(j, s[i]) =~= s);
    }
}

/// Sorts the items ascending: the order the search likes best, since it
/// puts the large items deepest, where the pruning bites soonest.
pub fn sort_items(items: &mut Vec<u64>)
    ensures
        sorted_ascending(final(items)@),
        final(items)@.to_multiset() == old(items)@.to_multiset(),
        final(items)@.len() == old(items)@.len(),
{
    let n: usize = items.len();
    let mut k: usize = 1;
    while k < n
        invariant
            1 <= k,
            k <= n || n <= 1,
            n == items@.len(),
            items@.to_multiset() == old(items)@.to_multiset(),
            forall|a: int, b: int| 0 <= a <= b < k ==> items@[a] <= items@[b],
        decreases n - k,
    {
        let mut j: usize = k;
        while j > 0 && items[j - 1] > items[j]
            invariant
                j <= k < n,
                n == items@.len(),
                items@.to_multiset() == old(items)@.to_multiset(),
                forall|a: int, b: int|
                    0 <= a <= b <= k && a != j && b != j ==> items@[a] <= items@[b],
                forall|b: int| j < b <= k ==> items@[j as int] <= items@[b],
            decreases j,
        {
            let ghost before = items@;
            let moving: u64 = items[j];
            let other: u64 = items[j - 1];
            items[j] = other;
            items[j - 1] = moving;
            proof {
                lemma_swap_preserves_multiset(before, j as int, (j - 1) as int);
                assert(items@ =~= before.update(j as int, before[(j - 1) as int]).update(
                    (j - 1) as int,
                    before[j as int],
                ));
            }
            j = j - 1;
        }
        proof {
            assert forall|a: int, b: int| 0 <= a <= b <= k implies items@[a] <= items@[b] by {
                if a == j as int && b > j as int {
                    assert(items@[j as int] <= items@[b]);
                } else if b == j as int && a < j as int {
                    assert(items@[a] <= items@[(j - 1) as int]);
                    assert(items@[(j - 1) as int] <= items@[j as int]);
                }
            }
        }
        k = k + 1;
    }
}

/// Lists the weights that `mask` selects, from the last item toward the
/// first: with items sorted ascending, the report comes out descending.
pub fn selected_items(items: &Vec<u64>, mask: u64) -> (r: Vec<u64>)
    ensures
        r@ == selected_seq(items@, mask as nat),
{
    let mut r: Vec<u64> = Vec::new();
    let mut i: usize = items.len();
    let mut m: u64 = mask;
    proof {
        assert(items@.take(items.len() as int) =~= items@);
    }
    while i > 0
        invariant
            i <= items@.len(),
            selected_seq(items@, mask as nat) == r@ + selected_seq(
                items@.take(i as int),
                m as nat,
            ),
        decreases i,
    {
        let ghost taken = items@.take(i as int);
        proof {
            assert(taken.drop_last() =~= items@.take(i - 1));
            assert(taken.last() == items@[i - 1]);
        }
        i = i - 1;
        if m % 2 == 1 {
            r.push(items[i]);
            proof {
                assert(r@ + selected_seq(items@.take(i as int), (m / 2) as nat) =~= r@.drop_last()
                    + (seq![items@[i as int]] + selected_seq(
                    items@.take(i as int),
                    (m / 2) as nat,
                )));
            }
        }
        m = m / 2;
    }
    proof {
        assert(items@.take(0) =~= Seq::<u64>::empty());
        assert(r@ + Seq::<u64>::empty() =~= r@);
    }
    r
}

} // verus!
