use item_range::{find_selection, Item, Query};

fn item(item_id: i64, value: i64, qty: u8) -> Item {
    Item { item_id, value, qty }
}

fn query(min_value: i64, max_value: i64, min_items: u8, max_items: u8) -> Query {
    Query { min_value, max_value, min_items, max_items }
}

fn total_value(picks: &[item_range::Pick]) -> i64 {
    picks.iter().map(|p| p.qty as i64 * p.value).sum()
}

fn total_count(picks: &[item_range::Pick]) -> u64 {
    picks.iter().map(|p| p.qty as u64).sum()
}

fn qty_of(picks: &[item_range::Pick], id: i64) -> u8 {
    picks.iter().find(|p| p.item_id == id).map(|p| p.qty).unwrap_or(0)
}

#[test]
fn window_midpoint_hit_with_two_item_kinds() {
    let items = vec![item(1, 10, 3), item(2, 7, 2)];
    let picks = find_selection(items, query(15, 25, 2, 4));
    assert_eq!(total_value(&picks), 20);
    let c = total_count(&picks);
    assert!(c >= 2 && c <= 4);
    assert!(qty_of(&picks, 1) <= 3 && qty_of(&picks, 2) <= 2);
}

#[test]
fn selects_single_high_item_at_midpoint() {
    let items = vec![item(1, 100, 1), item(2, 50, 1), item(3, 25, 2)];
    let picks = find_selection(items, query(90, 110, 1, 3));
    assert_eq!(total_value(&picks), 100);
    assert_eq!(qty_of(&picks, 1), 1);
    assert_eq!(qty_of(&picks, 2), 0);
    assert_eq!(qty_of(&picks, 3), 0);
}

#[test]
fn picks_six_copies_of_single_kind() {
    let items = vec![item(9, 5, 10)];
    let picks = find_selection(items, query(20, 40, 1, 10));
    assert_eq!(total_value(&picks), 30);
    assert_eq!(qty_of(&picks, 9), 6);
}

#[test]
fn empty_inventory_returns_empty_selection() {
    let picks = find_selection(Vec::new(), query(0, 100, 0, 5));
    assert!(picks.is_empty());
}

#[test]
fn tight_window_forces_all_copies() {
    let items = vec![item(4, 7, 3)];
    let picks = find_selection(items, query(20, 22, 1, 5));
    assert_eq!(total_value(&picks), 21);
    assert_eq!(qty_of(&picks, 4), 3);
}

#[test]
fn count_cap_limits_low_value_padding() {
    let items = vec![item(1, 10, 2), item(2, 1, 5)];
    let picks = find_selection(items, query(12, 18, 2, 4));
    assert_eq!(total_value(&picks), 13);
    let c = total_count(&picks);
    assert!(c >= 2 && c <= 4);
}

#[test]
fn empty_selection_wins_at_zero_midpoint() {
    let items = vec![item(1, 3, 1)];
    let picks = find_selection(items, query(0, 1, 0, 5));
    assert!(picks.is_empty());
}

#[test]
fn unreachable_minimum_value_returns_empty() {
    let items = vec![item(1, 5, 2)];
    let picks = find_selection(items, query(11, 100, 0, 10));
    assert!(picks.is_empty());
}

#[test]
fn zero_max_items_returns_empty() {
    let items = vec![item(1, 5, 2)];
    let picks = find_selection(items, query(0, 10, 0, 0));
    assert!(picks.is_empty());
}

#[test]
fn zero_value_items_satisfy_count_minimum_only() {
    let items = vec![item(1, 10, 1), item(2, 0, 3)];
    let picks = find_selection(items, query(10, 10, 3, 4));
    assert_eq!(total_value(&picks), 10);
    assert_eq!(total_count(&picks), 3);
    assert_eq!(qty_of(&picks, 1), 1);
    assert_eq!(qty_of(&picks, 2), 2);
}

#[test]
fn pinned_count_window_returns_exactly_that_many() {
    let items = vec![item(1, 10, 3)];
    let picks = find_selection(items, query(0, 100, 2, 2));
    assert_eq!(total_count(&picks), 2);
    assert_eq!(total_value(&picks), 20);
}

#[test]
fn leftover_filler_lifts_count_below_minimum() {
    // Fifty equal top items push one cheap item into the leftover; a single
    // top copy is inside the value window but short of the count minimum,
    // so two filler copies are added.
    let mut items = Vec::new();
    for i in 0..50 {
        items.push(item(i, 10, 1));
    }
    items.push(item(100, 1, 5));
    let picks = find_selection(items, query(10, 12, 3, 5));
    assert_eq!(total_value(&picks), 12);
    assert_eq!(total_count(&picks), 3);
    assert_eq!(qty_of(&picks, 100), 2);
}

#[test]
fn picks_never_exceed_owned_quantities() {
    let items = vec![item(1, 8, 2), item(2, 3, 4), item(3, 2, 1)];
    let picks = find_selection(items.clone(), query(5, 23, 1, 7));
    for p in &picks {
        assert!(p.qty > 0);
        let owned = items.iter().find(|it| it.item_id == p.item_id).unwrap();
        assert!(p.qty <= owned.qty);
        assert_eq!(p.value, owned.value);
    }
    let v = total_value(&picks);
    assert!(v >= 5 && v <= 23);
}

#[test]
fn determinism_same_input_same_picks() {
    let items = vec![item(1, 10, 3), item(2, 7, 2), item(3, 7, 1)];
    let q = query(14, 24, 1, 5);
    let mut a = find_selection(items.clone(), q);
    let mut b = find_selection(items, q);
    a.sort_by_key(|p| p.item_id);
    b.sort_by_key(|p| p.item_id);
    assert_eq!(a.len(), b.len());
    for (x, y) in a.iter().zip(b.iter()) {
        assert_eq!(x.item_id, y.item_id);
        assert_eq!(x.qty, y.qty);
        assert_eq!(x.value, y.value);
    }
}
