use knapsack::report::{selected_items, sort_items};
use knapsack::search::search;

#[test]
fn sorting_orders_ascending_and_keeps_the_items() {
    let mut items: Vec<u64> = vec![9, 2, 7, 2, 5];
    sort_items(&mut items);
    assert_eq!(items, vec![2, 2, 5, 7, 9]);
}

#[test]
fn sorting_an_empty_or_single_list_changes_nothing() {
    let mut empty: Vec<u64> = vec![];
    sort_items(&mut empty);
    assert_eq!(empty, Vec::<u64>::new());

    let mut single: Vec<u64> = vec![4];
    sort_items(&mut single);
    assert_eq!(single, vec![4]);
}

#[test]
fn sorting_a_sorted_list_is_a_no_op() {
    let mut items: Vec<u64> = vec![1, 2, 3, 4];
    sort_items(&mut items);
    assert_eq!(items, vec![1, 2, 3, 4]);
}

#[test]
fn selected_items_lists_the_mask_from_the_back() {
    // Mask 0b110 picks items 2 and 3; the listing runs from the last item
    // toward the first, so the larger comes first.
    let items: Vec<u64> = vec![1, 2, 3, 4];
    assert_eq!(selected_items(&items, 0b110), vec![3, 2]);
}

#[test]
fn selected_items_of_the_zero_mask_is_empty() {
    let items: Vec<u64> = vec![1, 2, 3, 4];
    assert_eq!(selected_items(&items, 0), Vec::<u64>::new());
}

#[test]
fn selected_items_of_the_full_mask_reverses_the_list() {
    let items: Vec<u64> = vec![1, 2, 3, 4];
    assert_eq!(selected_items(&items, 0b1111), vec![4, 3, 2, 1]);
}

#[test]
fn selected_weights_sum_to_the_reported_best() {
    // Mask consistency, end to end: the listed weights add up to the sum
    // the search reported.
    let items: Vec<u64> = vec![2, 2, 5, 9, 11];
    for limit in [0, 1, 4, 9, 13, 20, 29] {
        let (sum, mask) = search(limit, &items);
        let chosen = selected_items(&items, mask);
        let total: u64 = chosen.iter().sum();
        assert_eq!(total, sum, "limit {}", limit);
        assert!(sum <= limit);
    }
}

#[test]
fn whole_pipeline_sorts_searches_and_reports() {
    // The shape of a full run: sort ascending, search, list the picks.
    let mut items: Vec<u64> = vec![4, 1, 3, 2];
    sort_items(&mut items);
    assert_eq!(items, vec![1, 2, 3, 4]);
    let (sum, mask) = search(5, &items);
    assert_eq!(sum, 5);
    let chosen = selected_items(&items, mask);
    assert_eq!(chosen, vec![3, 2]);
}
