use bin_packer::allocation::{
    committed_totals, pack_max_dimensionless_orders, select_additional,
};
use bin_packer::bin::BinWithPackedOrders;
use bin_packer::knapsack::{
    best_selection, index_contains, index_insert, knapsack_1d_float, knapsack_2d_float, state_key,
};
use std::collections::BTreeMap;
use bin_packer::order::DimensionLessOrder;

fn order(id: &str, weight: u64, volume: Option<u64>) -> DimensionLessOrder {
    DimensionLessOrder { id: id.to_string(), weight, volume }
}

fn ids(orders: &[DimensionLessOrder]) -> Vec<String> {
    orders.iter().map(|o| o.id.clone()).collect()
}

fn commitments(
    id: &str,
    max_weight: u64,
    max_volume: Option<u64>,
    packed: Vec<DimensionLessOrder>,
) -> BinWithPackedOrders {
    BinWithPackedOrders {
        id: id.to_string(),
        max_weight,
        max_volume,
        packed_orders: packed,
        additional_packed_orders: Vec::new(),
    }
}

#[test]
fn heaviest_subset_under_the_weight_limit() {
    let pool = vec![order("a", 5, None), order("b", 4, None), order("c", 3, None)];
    let chosen = knapsack_1d_float(&pool, 8);
    let total: u64 = chosen.iter().map(|o| o.weight).sum();
    assert_eq!(total, 8);
    assert_eq!(ids(&chosen), vec!["a", "c"]);
}

#[test]
fn weight_equal_to_the_limit_is_accepted() {
    let pool = vec![order("a", 5, None), order("b", 4, None)];
    assert_eq!(ids(&knapsack_1d_float(&pool, 9)), vec!["a", "b"]);
    assert_eq!(ids(&knapsack_1d_float(&pool, 5)), vec!["a"]);
    assert_eq!(ids(&knapsack_1d_float(&pool, 4)), vec!["b"]);
    assert!(knapsack_1d_float(&pool, 3).is_empty());
}

#[test]
fn empty_pool_gives_empty_selection() {
    assert!(knapsack_1d_float(&[], 10).is_empty());
    assert!(knapsack_2d_float(&[], 10, 10).is_empty());
    assert_eq!(best_selection(&Vec::new(), 10, 10), (0, 0, Vec::new()));
}

#[test]
fn earliest_subset_stands_for_a_sum() {
    // 7 is reached by {a, b} before c is looked at
    let pool = vec![order("a", 3, None), order("b", 4, None), order("c", 7, None)];
    assert_eq!(ids(&knapsack_1d_float(&pool, 7)), vec!["a", "b"]);
}

#[test]
fn weightless_candidates_are_never_selected() {
    let pool = vec![order("z", 0, None), order("a", 3, None)];
    assert_eq!(ids(&knapsack_1d_float(&pool, 3)), vec!["a"]);
}

#[test]
fn large_weights_do_not_wrap() {
    let pool = vec![order("a", u64::MAX, None), order("b", u64::MAX, None), order("c", 1, None)];
    assert_eq!(ids(&knapsack_1d_float(&pool, u64::MAX)), vec!["a"]);
    assert_eq!(ids(&knapsack_1d_float(&pool, u64::MAX - 1)), vec!["c"]);
}

#[test]
fn both_limits_are_kept() {
    let pool = vec![order("a", 5, Some(5)), order("b", 4, Some(1)), order("c", 3, Some(1))];
    let chosen = knapsack_2d_float(&pool, 8, 2);
    assert_eq!(ids(&chosen), vec!["b", "c"]);
    let chosen = knapsack_2d_float(&pool, 8, 6);
    assert_eq!(ids(&chosen), vec!["a", "c"]);
    let chosen = knapsack_2d_float(&pool, 8, 0);
    assert!(chosen.is_empty());
}

#[test]
fn equal_weights_prefer_the_greater_volume() {
    let pool = vec![order("a", 5, Some(1)), order("b", 5, Some(2))];
    assert_eq!(ids(&knapsack_2d_float(&pool, 5, 5)), vec!["b"]);
    let pool = vec![order("b", 5, Some(2)), order("a", 5, Some(1))];
    assert_eq!(ids(&knapsack_2d_float(&pool, 5, 5)), vec!["b"]);
}

#[test]
fn unknown_volume_takes_up_none() {
    let pool = vec![order("a", 5, None), order("b", 4, Some(3))];
    assert_eq!(ids(&knapsack_2d_float(&pool, 9, 3)), vec!["a", "b"]);
}

#[test]
fn best_selection_reports_sums_and_indices() {
    let costs = vec![(5, 2), (4, 1), (3, 1)];
    assert_eq!(best_selection(&costs, 8, 3), (8, 3, vec![0, 2]));
    assert_eq!(best_selection(&costs, 8, 2), (7, 2, vec![1, 2]));
    assert_eq!(best_selection(&costs, 100, 100), (12, 4, vec![0, 1, 2]));
    assert_eq!(best_selection(&costs, 2, 100), (0, 0, vec![]));
}

#[test]
fn no_subset_beats_the_selection() {
    let weights: Vec<u64> = vec![7, 11, 13, 5, 3, 17];
    let pool: Vec<DimensionLessOrder> =
        weights.iter().enumerate().map(|(i, w)| order(&format!("o{}", i), *w, None)).collect();
    for capacity in 0..60u64 {
        let chosen = knapsack_1d_float(&pool, capacity);
        let total: u64 = chosen.iter().map(|o| o.weight).sum();
        assert!(total <= capacity);
        let mut best = 0u64;
        for mask in 0..(1u32 << weights.len()) {
            let sum: u64 =
                weights.iter().enumerate().filter(|(i, _)| mask & (1 << i) != 0).map(|(_, w)| *w).sum();
            if sum <= capacity && sum > best {
                best = sum;
            }
        }
        assert_eq!(total, best);
    }
}

#[test]
fn committed_totals_sum_weight_and_volume() {
    let packed = vec![order("a", 5, Some(2)), order("b", 4, None), order("c", 1, Some(7))];
    assert_eq!(committed_totals(&packed), (10, 9));
    assert_eq!(committed_totals(&Vec::new()), (0, 0));
}

#[test]
fn candidates_over_the_remaining_volume_drop_the_container() {
    let bins = vec![commitments("b1", 100, Some(10), vec![order("p", 10, Some(8))])];
    let pool = vec![order("a", 5, Some(3)), order("b", 4, Some(5)), order("c", 3, Some(9))];
    assert!(select_additional(&bins[0], &pool).is_empty());
    assert!(pack_max_dimensionless_orders(&bins, &pool).is_empty());
}

#[test]
fn remaining_capacity_counts_the_commitments() {
    let bins = vec![commitments("b1", 20, None, vec![order("p", 7, None), order("q", 5, None)])];
    let pool = vec![order("a", 5, None), order("b", 4, None), order("c", 3, None), order("d", 9, None)];
    let out = pack_max_dimensionless_orders(&bins, &pool);
    assert_eq!(out.len(), 1);
    assert_eq!(out[0].id, "b1");
    assert_eq!(out[0].max_weight, 20);
    assert_eq!(out[0].max_volume, None);
    assert_eq!(ids(&out[0].packed_orders), vec!["p", "q"]);
    assert_eq!(ids(&out[0].additional_packed_orders), vec!["a", "c"]);
}

#[test]
fn containers_without_selection_are_dropped_in_order() {
    let bins = vec![
        commitments("full", 10, None, vec![order("p", 10, None)]),
        commitments("open", 10, None, vec![]),
        commitments("over", 10, None, vec![order("p", 11, None)]),
        commitments("tracked", 10, Some(4), vec![order("p", 1, Some(1))]),
    ];
    let pool = vec![order("a", 6, Some(3)), order("b", 4, None), order("c", 3, Some(1))];
    let out = pack_max_dimensionless_orders(&bins, &pool);
    assert_eq!(out.iter().map(|b| b.id.clone()).collect::<Vec<_>>(), vec!["open", "tracked"]);
    assert_eq!(ids(&out[0].additional_packed_orders), vec!["a", "b"]);
    // the tracked container has 9 of weight and 3 of volume left, and
    // takes only candidates with a known volume
    assert_eq!(ids(&out[1].additional_packed_orders), vec!["a"]);
    assert_eq!(ids(&out[1].packed_orders), vec!["p"]);
}

#[test]
fn commitments_over_the_volume_limit_select_nothing() {
    let bin = commitments("b", 100, Some(5), vec![order("p", 1, Some(6))]);
    let pool = vec![order("a", 1, Some(0))];
    assert!(select_additional(&bin, &pool).is_empty());
}

#[test]
fn greeting_is_fixed() {
    assert_eq!(bin_packer::test_wasm(), "WASM Loaded...");
}

#[test]
fn no_subset_beats_the_selection_under_two_limits() {
    let costs: Vec<(u64, u64)> = vec![(7, 3), (11, 1), (13, 6), (5, 2), (3, 3)];
    let pool: Vec<DimensionLessOrder> = costs
        .iter()
        .enumerate()
        .map(|(i, c)| order(&format!("o{}", i), c.0, Some(c.1)))
        .collect();
    for capacity_weight in 0..40u64 {
        for capacity_volume in 0..16u64 {
            let chosen = knapsack_2d_float(&pool, capacity_weight, capacity_volume);
            let weight: u64 = chosen.iter().map(|o| o.weight).sum();
            let volume: u64 = chosen.iter().map(|o| o.volume.unwrap()).sum();
            assert!(weight <= capacity_weight);
            assert!(volume <= capacity_volume);
            let mut best = (0u64, 0u64);
            for mask in 0..(1u32 << costs.len()) {
                let picked: Vec<&(u64, u64)> = costs
                    .iter()
                    .enumerate()
                    .filter(|(i, _)| mask & (1 << i) != 0)
                    .map(|(_, c)| c)
                    .collect();
                let w: u64 = picked.iter().map(|c| c.0).sum();
                let v: u64 = picked.iter().map(|c| c.1).sum();
                if w <= capacity_weight && v <= capacity_volume && (w, v) > best {
                    best = (w, v);
                }
            }
            assert_eq!((weight, volume), best);
        }
    }
}

#[test]
fn selection_is_repeatable() {
    let pool = vec![order("a", 5, Some(1)), order("b", 4, Some(2)), order("c", 3, Some(3))];
    assert_eq!(ids(&knapsack_1d_float(&pool, 8)), ids(&knapsack_1d_float(&pool, 8)));
    assert_eq!(ids(&knapsack_2d_float(&pool, 8, 4)), ids(&knapsack_2d_float(&pool, 8, 4)));
    assert_eq!(ids(&knapsack_2d_float(&pool, 8, 4)), vec!["a", "c"]);
}

#[test]
fn keys_order_pairs_by_weight_then_volume() {
    assert_eq!(state_key(0, 0), 0);
    assert_eq!(state_key(0, 7), 7);
    assert_eq!(state_key(1, 0), 1u128 << 64);
    assert_eq!(state_key(u64::MAX, u64::MAX), u128::MAX);
    assert!(state_key(1, 0) > state_key(0, u64::MAX));
    assert!(state_key(3, 5) < state_key(3, 6));
}

#[test]
fn index_holds_what_was_entered() {
    let mut index: BTreeMap<u128, usize> = BTreeMap::new();
    assert!(!index_contains(&index, state_key(2, 1)));
    index_insert(&mut index, state_key(2, 1), 4);
    assert!(index_contains(&index, state_key(2, 1)));
    assert!(!index_contains(&index, state_key(1, 2)));
    assert_eq!(index.get(&state_key(2, 1)), Some(&4));
}

#[test]
fn many_coinciding_sums_keep_one_state_each() {
    let pool: Vec<DimensionLessOrder> =
        (0..40).map(|i| order(&format!("o{}", i), 1, Some(1))).collect();
    let chosen = knapsack_2d_float(&pool, 25, 30);
    assert_eq!(chosen.len(), 25);
    assert_eq!(ids(&chosen)[0], "o0");
    assert_eq!(ids(&chosen)[24], "o24");
}
