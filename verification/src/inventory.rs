//! Inventory items, query windows, and the basic sums the contracts use.

use vstd::prelude::*;
use vstd::arithmetic::mul::lemma_mul_nonnegative;

verus! {

/// One owned item: its identifier, the value of a single copy, and how many
/// copies the user owns.
#[derive(Clone, Copy, PartialEq, Eq, Structural)]
pub struct Item {
    pub item_id: i64,
    pub value: i64,
    pub qty: u8,
}

/// The request windows: total value must land in `[min_value, max_value]`,
/// total copy count in `[min_items, max_items]`.
#[derive(Clone, Copy, PartialEq, Eq, Structural)]
pub struct Query {
    pub min_value: i64,
    pub max_value: i64,
    pub min_items: u8,
    pub max_items: u8,
}

/// Sum of `qty * value` over all items: the value of taking everything.
pub open spec fn total_value(items: Seq<Item>) -> int
    decreases items.len(),
{
    if items.len() == 0 {
        0
    } else {
        total_value(items.drop_last()) + items.last().qty * items.last().value
    }
}

/// Sum of `qty` over all items: how many copies the user owns in all.
pub open spec fn sum_qty(items: Seq<Item>) -> int
    decreases items.len(),
{
    if items.len() == 0 {
        0
    } else {
        sum_qty(items.drop_last()) + items.last().qty
    }
}

/// Items ordered by value, highest first.
pub open spec fn sorted_desc(items: Seq<Item>) -> bool {
    forall|i: int, j: int| 0 <= i <= j < items.len() ==> items[i].value >= items[j].value
}

/// Every copy value is non-negative.
pub open spec fn values_nonneg(items: Seq<Item>) -> bool {
    forall|i: int| 0 <= i < items.len() ==> items[i].value >= 0
}

/// No two items share an identifier.
pub open spec fn unique_ids(items: Seq<Item>) -> bool {
    forall|i: int, j: int| 0 <= i < j < items.len() ==> items[i].item_id != items[j].item_id
}

/// With non-negative values, the whole inventory's value is non-negative.
pub proof fn lemma_total_value_nonneg(items: Seq<Item>)
    requires
        values_nonneg(items),
    ensures
        total_value(items) >= 0,
    decreases items.len(),
{
    if items.len() > 0 {
        lemma_total_value_nonneg(items.drop_last());
        lemma_mul_nonnegative(items.last().qty as int, items.last().value as int);
    }
}

/// The inventory's value splits at any boundary.
pub proof fn lemma_total_value_split(s: Seq<Item>, i: int)
    requires
        0 <= i <= s.len(),
    ensures
        total_value(s) == total_value(s.take(i)) + total_value(s.skip(i)),
    decreases s.len(),
{
    if i == s.len() {
        assert(s.take(i) =~= s);
        assert(s.skip(i) =~= Seq::<Item>::empty());
    } else {
        assert(s.len() > 0);
        lemma_total_value_split(s.drop_last(), i);
        assert(s.drop_last().take(i) =~= s.take(i));
        assert(s.skip(i).drop_last() =~= s.drop_last().skip(i));
        assert(s.skip(i).last() == s.last());
        assert(total_value(s.skip(i))
            == total_value(s.skip(i).drop_last()) + s.skip(i).last().qty * s.skip(i).last().value);
    }
}

/// The inventory's copy count splits at any boundary.
pub proof fn lemma_sum_qty_split(s: Seq<Item>, i: int)
    requires
        0 <= i <= s.len(),
    ensures
        sum_qty(s) == sum_qty(s.take(i)) + sum_qty(s.skip(i)),
    decreases s.len(),
{
    if i == s.len() {
        assert(s.take(i) =~= s);
        assert(s.skip(i) =~= Seq::<Item>::empty());
    } else {
        assert(s.len() > 0);
        lemma_sum_qty_split(s.drop_last(), i);
        assert(s.drop_last().take(i) =~= s.take(i));
        assert(s.skip(i).drop_last() =~= s.drop_last().skip(i));
        assert(s.skip(i).last() == s.last());
        assert(sum_qty(s.skip(i)) == sum_qty(s.skip(i).drop_last()) + s.skip(i).last().qty);
    }
}

/// The well-formed queries: non-negative windows in the right order.
pub open spec fn query_ok(q: Query) -> bool {
    &&& 0 <= q.min_value <= q.max_value
    &&& q.min_items <= q.max_items
}

} // verus!
