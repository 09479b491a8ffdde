//! The mathematical model of the search: sums of weight sequences, sums of
//! the weights a bitmask selects, and the lemmas that relate them.
//!
//! A mask selects items counting from the end of the sequence: bit 0 selects
//! the last item, bit 1 the one before it, and so on. This matches how the
//! search builds its masks, left-shifting as the recursion descends, so the
//! item decided deepest (the last one) lands in the lowest bit.

use vstd::prelude::*;
use vstd::arithmetic::power2::{pow2, lemma_pow2_unfold, lemma_pow2_pos, lemma2_to64};
use vstd::arithmetic::div_mod::{
    lemma_fundamental_div_mod, lemma_fundamental_div_mod_converse,
    lemma_mod_division_less_than_divisor,
};

verus! {

/// Sum of every weight in the sequence.
pub open spec fn seq_sum(s: Seq<u64>) -> int
    decreases s.len(),
{
    if s.len() == 0 {
        0
    } else {
        seq_sum(s.drop_last()) + s.last()
    }
}

/// Sum of the weights that the mask `m` selects from `s`: bit 0 of `m`
/// selects `s.last()`, bit 1 the item before it, and so on. Bits at or
/// beyond `s.len()` select nothing.
pub open spec fn masked_sum(s: Seq<u64>, m: nat) -> int
    decreases s.len(),
{
    if s.len() == 0 {
        0
    } else {
        masked_sum(s.drop_last(), m / 2) + if m % 2 == 1 {
            s.last() as int
        } else {
            0
        }
    }
}

/// The items of `s` from index `depth` to the end, in order.
pub open spec fn suffix_of(s: Seq<u64>, depth: int) -> Seq<u64> {
    s.subrange(depth, s.len() as int)
}

pub proof fn lemma_seq_sum_nonneg(s: Seq<u64>)
    ensures
        0 <= seq_sum(s),
    decreases s.len(),
{
    if s.len() > 0 {
        lemma_seq_sum_nonneg(s.drop_last());
    }
}

/// A mask never selects less than nothing nor more than everything.
pub proof fn lemma_masked_sum_bounds(s: Seq<u64>, m: nat)
    ensures
        0 <= masked_sum(s, m) <= seq_sum(s),
    decreases s.len(),
{
    if s.len() > 0 {
        lemma_masked_sum_bounds(s.drop_last(), m / 2);
    }
}

/// The zero mask selects nothing.
pub proof fn lemma_masked_sum_zero(s: Seq<u64>)
    ensures
        masked_sum(s, 0) == 0,
    decreases s.len(),
{
    if s.len() > 0 {
        lemma_masked_sum_zero(s.drop_last());
    }
}

/// Peeling the first item off a sum.
pub proof fn lemma_seq_sum_first(s: Seq<u64>)
    requires
        s.len() >= 1,
    ensures
        seq_sum(s) == s[0] + seq_sum(s.drop_first()),
    decreases s.len(),
{
    if s.len() == 1 {
        assert(s.drop_first() =~= Seq::<u64>::empty());
        assert(s.drop_last() =~= Seq::<u64>::empty());
        assert(s.last() == s[0]);
    } else {
        lemma_seq_sum_first(s.drop_last());
        assert(s.drop_last().drop_first() =~= s.drop_first().drop_last());
        assert(s.drop_last()[0] == s[0]);
        assert(s.drop_first().last() == s.last());
    }
}

/// A mask below `pow2(len - 1)` leaves the first item's bit clear, so it
/// selects the same weights from `s` as from `s` without its first item.
pub proof fn lemma_masked_sum_skip_first(s: Seq<u64>, m: nat)
    requires
        s.len() >= 1,
        m < pow2((s.len() - 1) as nat),
    ensures
        masked_sum(s, m) == masked_sum(s.drop_first(), m),
    decreases s.len(),
{
    if s.len() == 1 {
        assert(pow2(0) == 1) by {
            vstd::arithmetic::power2::lemma2_to64();
        }
        assert(m == 0);
        assert(s.drop_first() =~= Seq::<u64>::empty());
        lemma_masked_sum_zero(s);
    } else {
        let n = s.len();
        lemma_pow2_unfold((n - 1) as nat);
        assert(pow2((n - 1) as nat) == 2 * pow2((n - 2) as nat));
        lemma_fundamental_div_mod(m as int, 2);
        assert(m / 2 < pow2((n - 2) as nat));
        lemma_masked_sum_skip_first(s.drop_last(), m / 2);
        assert(s.drop_last().drop_first() =~= s.drop_first().drop_last());
        assert(s.drop_first().last() == s.last());
    }
}

/// A mask of the form `pow2(len - 1) + m` with `m < pow2(len - 1)` sets the
/// first item's bit and selects `m`'s weights among the rest.
pub proof fn lemma_masked_sum_take_first(s: Seq<u64>, m: nat)
    requires
        s.len() >= 1,
        m < pow2((s.len() - 1) as nat),
    ensures
        masked_sum(s, pow2((s.len() - 1) as nat) + m) == s[0] + masked_sum(s.drop_first(), m),
    decreases s.len(),
{
    let n = s.len();
    let k = pow2((n - 1) as nat) + m;
    if n == 1 {
        assert(pow2(0) == 1) by {
            vstd::arithmetic::power2::lemma2_to64();
        }
        assert(m == 0);
        assert(k == 1);
        assert(s.drop_last() =~= Seq::<u64>::empty());
        assert(s.drop_first() =~= Seq::<u64>::empty());
        assert(masked_sum(s.drop_last(), 0) == 0);
        assert(masked_sum(s, 1) == s.last() as int);
        assert(s.last() == s[0]);
    } else {
        lemma_pow2_unfold((n - 1) as nat);
        assert(pow2((n - 1) as nat) == 2 * pow2((n - 2) as nat));
        lemma_fundamental_div_mod(m as int, 2);
        assert(k == 2 * (pow2((n - 2) as nat) + m / 2) + m % 2);
        lemma_fundamental_div_mod_converse(
            k as int,
            2,
            pow2((n - 2) as nat) as int + m / 2,
            (m % 2) as int,
        );
        assert(k / 2 == pow2((n - 2) as nat) + m / 2);
        assert(k % 2 == m % 2);
        assert(m / 2 < pow2((n - 2) as nat));
        lemma_masked_sum_take_first(s.drop_last(), m / 2);
        assert(s.drop_last().drop_first() =~= s.drop_first().drop_last());
        assert(s.drop_last()[0] == s[0]);
        assert(s.drop_first().last() == s.last());
    }
}

/// Every mask below `pow2(n)` splits into a top bit and a remainder below
/// `pow2(n - 1)`.
pub proof fn lemma_mask_split(m: nat, n: nat)
    requires
        n >= 1,
        m < pow2(n),
    ensures
        m / pow2((n - 1) as nat) <= 1,
        m % pow2((n - 1) as nat) < pow2((n - 1) as nat),
        m / pow2((n - 1) as nat) == 0 ==> m == m % pow2((n - 1) as nat),
        m / pow2((n - 1) as nat) == 1 ==> m == pow2((n - 1) as nat) + m % pow2((n - 1) as nat),
{
    let p = pow2((n - 1) as nat) as int;
    lemma_pow2_pos((n - 1) as nat);
    lemma_pow2_unfold(n);
    assert(pow2(n) == 2 * pow2((n - 1) as nat));
    lemma_fundamental_div_mod(m as int, p);
    lemma_mod_division_less_than_divisor(m as int, p);
    assert(m as int == (m as int / p) * p + m as int % p);
    assert(m / p as nat <= 1) by {
        if m as int / p >= 2 {
            assert((m as int / p) * p >= 2 * p) by (nonlinear_arith)
                requires
                    m as int / p >= 2,
                    p > 0,
            ;
        }
    }
    if m as int / p == 0 {
        assert((m as int / p) * p == 0) by (nonlinear_arith)
            requires
                m as int / p == 0,
        ;
    }
    if m as int / p == 1 {
        assert((m as int / p) * p == p) by (nonlinear_arith)
            requires
                m as int / p == 1,
        ;
    }
}

/// Sum of the weights whose positions `sel` marks true, `sel` read beside
/// `items` position by position (meaningful when the lengths agree).
pub open spec fn sel_sum(items: Seq<u64>, sel: Seq<bool>) -> int
    decreases items.len(),
{
    if items.len() == 0 {
        0
    } else {
        sel_sum(items.drop_last(), sel.drop_last()) + if sel.last() {
            items.last() as int
        } else {
            0
        }
    }
}

/// The mask that selects exactly the positions `sel` marks true.
pub open spec fn mask_of_sel(sel: Seq<bool>) -> nat
    decreases sel.len(),
{
    if sel.len() == 0 {
        0
    } else {
        2 * mask_of_sel(sel.drop_last()) + if sel.last() {
            1nat
        } else {
            0nat
        }
    }
}

/// The selection that the low `len` bits of a mask make.
pub open spec fn sel_of_mask(m: nat, len: nat) -> Seq<bool>
    decreases len,
{
    if len == 0 {
        Seq::empty()
    } else {
        sel_of_mask(m / 2, (len - 1) as nat).push(m % 2 == 1)
    }
}

pub proof fn lemma_mask_of_sel_bound(sel: Seq<bool>)
    ensures
        mask_of_sel(sel) < pow2(sel.len()),
    decreases sel.len(),
{
    if sel.len() == 0 {
        lemma2_to64();
    } else {
        lemma_mask_of_sel_bound(sel.drop_last());
        lemma_pow2_unfold(sel.len());
    }
}

/// A selection and its mask select the same weights.
pub proof fn lemma_sel_sum_is_masked_sum(items: Seq<u64>, sel: Seq<bool>)
    requires
        sel.len() == items.len(),
    ensures
        masked_sum(items, mask_of_sel(sel)) == sel_sum(items, sel),
    decreases items.len(),
{
    if items.len() > 0 {
        let k = mask_of_sel(sel);
        let k1 = mask_of_sel(sel.drop_last());
        let bit: nat = if sel.last() {
            1nat
        } else {
            0nat
        };
        lemma_fundamental_div_mod_converse(k as int, 2, k1 as int, bit as int);
        lemma_sel_sum_is_masked_sum(items.drop_last(), sel.drop_last());
    }
}

pub proof fn lemma_sel_of_mask_len(m: nat, len: nat)
    ensures
        sel_of_mask(m, len).len() == len,
    decreases len,
{
    if len > 0 {
        lemma_sel_of_mask_len(m / 2, (len - 1) as nat);
    }
}

/// A mask and the selection its bits make select the same weights.
pub proof fn lemma_masked_sum_is_sel_sum(items: Seq<u64>, m: nat)
    ensures
        sel_sum(items, sel_of_mask(m, items.len())) == masked_sum(items, m),
    decreases items.len(),
{
    if items.len() > 0 {
        let inner = sel_of_mask(m / 2, (items.len() - 1) as nat);
        let sel = sel_of_mask(m, items.len());
        assert(sel == inner.push(m % 2 == 1));
        lemma_sel_of_mask_len(m / 2, (items.len() - 1) as nat);
        assert(sel.drop_last() =~= inner);
        assert(sel.last() == (m % 2 == 1));
        lemma_masked_sum_is_sel_sum(items.drop_last(), m / 2);
    }
}

/// Marking an extra position false adds nothing to a selection's sum:
/// selecting from `items` with a false mark slipped in at `i` picks the same
/// weights as selecting from `items` without its `i`-th element.
pub proof fn lemma_sel_sum_insert_false(items: Seq<u64>, sel: Seq<bool>, i: int)
    requires
        0 <= i < items.len(),
        sel.len() == items.len() - 1,
    ensures
        sel_sum(items, sel.insert(i, false)) == sel_sum(items.remove(i), sel),
    decreases items.len(),
{
    let n = items.len() as int;
    let s2 = sel.insert(i, false);
    if i == n - 1 {
        assert(s2.last() == false);
        assert(s2.drop_last() =~= sel);
        assert(items.remove(i) =~= items.drop_last());
    } else {
        assert(s2.last() == sel.last());
        assert(s2.drop_last() =~= sel.drop_last().insert(i, false));
        assert(items.remove(i).drop_last() =~= items.drop_last().remove(i));
        assert(items.remove(i).last() == items.last());
        lemma_sel_sum_insert_false(items.drop_last(), sel.drop_last(), i);
    }
}

} // verus!
