use item_range::{build_leftover_prefix, enumerate_combos, lower_bound, sort_items_desc, Item};

fn item(item_id: i64, value: i64, qty: u8) -> Item {
    Item { item_id, value, qty }
}

#[test]
fn prefix_table_flattens_copies_in_order() {
    let leftover = vec![item(1, 5, 2), item(2, 3, 1)];
    let p = build_leftover_prefix(&leftover);
    assert_eq!(p, vec![0, 5, 10, 13]);
}

#[test]
fn prefix_table_of_empty_leftover_is_single_zero() {
    let p = build_leftover_prefix(&Vec::new());
    assert_eq!(p, vec![0]);
}

#[test]
fn prefix_table_is_monotone_with_zero_values() {
    let leftover = vec![item(1, 2, 1), item(2, 0, 3)];
    let p = build_leftover_prefix(&leftover);
    assert_eq!(p, vec![0, 2, 2, 2, 2]);
}

#[test]
fn lower_bound_finds_first_reaching_entry() {
    let p = vec![0, 5, 10, 13];
    assert_eq!(lower_bound(&p, 0), 0);
    assert_eq!(lower_bound(&p, 1), 1);
    assert_eq!(lower_bound(&p, 6), 2);
    assert_eq!(lower_bound(&p, 13), 3);
    assert_eq!(lower_bound(&p, 14), 4);
}

#[test]
fn enumeration_is_exhaustive_over_one_item() {
    let h = vec![item(1, 2, 2)];
    let combos = enumerate_combos(&h, 10, 10);
    assert_eq!(combos.len(), 3);
    let mut values: Vec<i64> = combos.iter().map(|c| c.value).collect();
    values.sort();
    assert_eq!(values, vec![0, 2, 4]);
}

#[test]
fn enumeration_prunes_by_value_and_count() {
    let h = vec![item(1, 4, 3), item(2, 1, 5)];
    let combos = enumerate_combos(&h, 6, 2);
    // feasible take vectors: value <= 6 and count <= 2
    // (0,0) (0,1) (0,2) (1,0) (1,1)
    assert_eq!(combos.len(), 5);
    for c in &combos {
        assert!(c.value <= 6);
        assert!(c.count <= 2);
    }
}

#[test]
fn enumeration_always_contains_the_empty_combination() {
    let h = vec![item(1, 100, 1)];
    let combos = enumerate_combos(&h, 0, 0);
    assert_eq!(combos.len(), 1);
    assert_eq!(combos[0].value, 0);
    assert_eq!(combos[0].count, 0);
}

#[test]
fn sort_orders_by_value_descending_and_keeps_items() {
    let items = vec![item(1, 3, 1), item(2, 9, 2), item(3, 5, 4)];
    let sorted = sort_items_desc(items);
    let values: Vec<i64> = sorted.iter().map(|it| it.value).collect();
    assert_eq!(values, vec![9, 5, 3]);
    let ids: Vec<i64> = sorted.iter().map(|it| it.item_id).collect();
    assert_eq!(ids, vec![2, 3, 1]);
    let qtys: Vec<u8> = sorted.iter().map(|it| it.qty).collect();
    assert_eq!(qtys, vec![2, 4, 1]);
}
