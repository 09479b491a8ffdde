use knapsack::search::{knapsack as knapsack_step, search};

/// Exhaustive reference: best subset sum within `limit`, with the least
/// achieving mask, item `i` sitting at bit `n - 1 - i`.
fn brute_force(items: &[u64], limit: u64) -> (u64, u64) {
    let n = items.len();
    let mut best_sum: u64 = 0;
    let mut best_mask: u64 = 0;
    for m in 0..(1u64 << n) {
        let mut s: u64 = 0;
        for i in 0..n {
            if (m >> (n - 1 - i)) & 1 == 1 {
                s += items[i];
            }
        }
        if s <= limit && s > best_sum {
            best_sum = s;
            best_mask = m;
        }
    }
    (best_sum, best_mask)
}

#[test]
fn empty_items_give_zero() {
    assert_eq!(search(0, &vec![]), (0, 0));
    assert_eq!(search(7, &vec![]), (0, 0));
    assert_eq!(search(u64::MAX, &vec![]), (0, 0));
}

#[test]
fn single_item_exactly_at_limit_is_taken() {
    let (sum, mask) = search(5, &vec![5]);
    assert_eq!(sum, 5);
    assert_eq!(mask, 1);
}

#[test]
fn single_item_above_limit_is_left() {
    let (sum, mask) = search(4, &vec![5]);
    assert_eq!(sum, 0);
    assert_eq!(mask, 0);
}

#[test]
fn single_item_fixed_point_above_limit_is_left() {
    // 5.0 against a limit of 4.9, in thousandths-of-a-millionth units.
    let (sum, mask) = search(4_900_000_000, &vec![5_000_000_000]);
    assert_eq!(sum, 0);
    assert_eq!(mask, 0);
}

#[test]
fn four_items_reach_the_limit_exactly() {
    // {2, 3} and {1, 4} both reach 5; the search settles on the least mask,
    // which picks {2, 3} (items 2 and 3 sit at bits 2 and 1).
    let (sum, mask) = search(5, &vec![1, 2, 3, 4]);
    assert_eq!(sum, 5);
    assert_eq!(mask, 0b110);
}

#[test]
fn four_items_fixed_point_scenario() {
    let items: Vec<u64> = vec![1_000_000_000, 2_000_000_000, 3_000_000_000, 4_000_000_000];
    let (sum, mask) = search(5_000_000_000, &items);
    assert_eq!(sum, 5_000_000_000);
    assert_eq!(mask, 0b110);
}

#[test]
fn zero_limit_takes_nothing() {
    assert_eq!(search(0, &vec![0, 1]), (0, 0));
    assert_eq!(search(0, &vec![3, 4, 5]), (0, 0));
}

#[test]
fn limit_below_every_item_takes_nothing() {
    assert_eq!(search(2, &vec![3, 4, 5]), (0, 0));
}

#[test]
fn limit_above_total_takes_everything() {
    let (sum, mask) = search(100, &vec![1, 2, 3, 4]);
    assert_eq!(sum, 10);
    assert_eq!(mask, 0b1111);
}

#[test]
fn matches_brute_force_on_small_sets() {
    let sets: Vec<Vec<u64>> = vec![
        vec![],
        vec![7],
        vec![1, 1, 1],
        vec![1, 2, 3, 4],
        vec![2, 2, 5, 9],
        vec![1, 2, 4, 8, 16, 32],
        vec![3, 3, 3, 3, 3],
        vec![5, 10, 11, 13, 24, 31],
        vec![1, 3, 5, 7, 9, 11, 13, 15],
        vec![0, 0, 2, 2],
    ];
    for items in &sets {
        let total: u64 = items.iter().sum();
        for limit in [0, 1, 2, 3, 5, 7, 12, 20, total, total + 1] {
            let expected = brute_force(items, limit);
            let got = search(limit, items);
            assert_eq!(got, expected, "items {:?}, limit {}", items, limit);
        }
    }
}

#[test]
fn raising_the_limit_never_lowers_the_sum() {
    let items: Vec<u64> = vec![2, 3, 7, 9];
    let mut previous: u64 = 0;
    for limit in 0..25 {
        let (sum, _) = search(limit, &items);
        assert!(sum >= previous);
        previous = sum;
    }
}

#[test]
fn removing_an_item_never_raises_the_sum() {
    let items: Vec<u64> = vec![2, 3, 7, 9];
    let limit: u64 = 13;
    let (full_sum, _) = search(limit, &items);
    for skip in 0..items.len() {
        let mut smaller = items.clone();
        smaller.remove(skip);
        let (sum, _) = search(limit, &smaller);
        assert!(sum <= full_sum);
    }
}

#[test]
fn repeated_calls_agree() {
    let items: Vec<u64> = vec![1, 2, 3, 4, 6, 6];
    let first = search(9, &items);
    let second = search(9, &items);
    assert_eq!(first, second);
}

#[test]
fn sixty_four_heavy_items_under_a_zero_limit() {
    // The largest item count the mask holds; the pruning cuts every
    // inclusion branch, so the run stays linear.
    let items: Vec<u64> = vec![1_000_000; 64];
    assert_eq!(search(0, &items), (0, 0));
}

#[test]
fn sixteen_items_match_brute_force() {
    let items: Vec<u64> = (1..=16).map(|i| i * i).collect();
    let limit: u64 = 500;
    assert_eq!(search(limit, &items), brute_force(&items, limit));
}

#[test]
fn recursive_step_from_the_root_matches_search() {
    let items: Vec<u64> = vec![1, 2, 3, 4];
    let mut sum: u64 = 0;
    let mut mask: u64 = 0;
    knapsack_step(5, &items, 0, &mut sum, &mut mask);
    assert_eq!((sum, mask), search(5, &items));
}

#[test]
fn recursive_step_from_mid_depth_decides_the_tail_only() {
    let items: Vec<u64> = vec![1, 2, 3, 4];
    let mut sum: u64 = 0;
    let mut mask: u64 = 0;
    // Depth 2: only items 3 and 4 are still open; 4 alone fits best.
    knapsack_step(5, &items, 2, &mut sum, &mut mask);
    assert_eq!(sum, 4);
    assert_eq!(mask, 0b01);
}

#[test]
fn ties_prefer_the_exclusion_branch() {
    // {3} and {1, 2} both reach 3; exclusion wins ties at every level, so
    // the lone later item (the smaller mask) is reported.
    let (sum, mask) = search(3, &vec![1, 2, 3]);
    assert_eq!(sum, 3);
    assert_eq!(mask, 0b001);
}
