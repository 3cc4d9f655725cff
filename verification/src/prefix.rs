//! The leftover-prefix table: cumulative sums of the leftover copies taken in
//! descending-value order, so that entry `k` is the value of the `k` highest
//! leftover copies.

use vstd::prelude::*;
use crate::inventory::{Item, total_value, sum_qty, sorted_desc, values_nonneg};

verus! {

/// The leftover flattened by copy: each item's value repeated `qty` times,
/// in item order.
pub open spec fn flat_values(items: Seq<Item>) -> Seq<i64>
    decreases items.len(),
{
    if items.len() == 0 {
        Seq::empty()
    } else {
        flat_values(items.drop_last()) + Seq::new(items.last().qty as nat, |t: int| items.last().value)
    }
}

/// Sum of the first `k` entries of a copy-value sequence.
pub open spec fn sum_first(s: Seq<i64>, k: int) -> int
    decreases k,
{
    if k <= 0 {
        0
    } else {
        sum_first(s, k - 1) + s[k - 1]
    }
}

/// A copy-value sequence ordered highest first.
pub open spec fn vals_sorted_desc(s: Seq<i64>) -> bool {
    forall|i: int, j: int| 0 <= i <= j < s.len() ==> s[i] >= s[j]
}

pub proof fn lemma_flat_len(items: Seq<Item>)
    ensures
        flat_values(items).len() == sum_qty(items),
    decreases items.len(),
{
    if items.len() > 0 {
        lemma_flat_len(items.drop_last());
    }
}

/// Every flattened entry is some item's value; position `sum_qty(prefix) + t`
/// holds the value of the item right after that prefix.
pub proof fn lemma_flat_index(items: Seq<Item>, i: int, t: int)
    requires
        0 <= i < items.len(),
        0 <= t < items[i].qty,
    ensures
        0 <= sum_qty(items.take(i)) + t < flat_values(items).len(),
        flat_values(items)[sum_qty(items.take(i)) + t] == items[i].value,
    decreases items.len(),
{
    lemma_flat_len(items);
    lemma_sum_qty_take_step(items, i);
    lemma_sum_qty_take_bounds(items, i);
    if i == items.len() - 1 {
        assert(items.take(i) =~= items.drop_last());
        lemma_flat_len(items.drop_last());
    } else {
        lemma_flat_len(items.drop_last());
        lemma_sum_qty_take_bounds(items.drop_last(), i);
        lemma_sum_qty_take_step(items.drop_last(), i);
        assert(items.drop_last().take(i) =~= items.take(i));
        lemma_flat_index(items.drop_last(), i, t);
    }
}

/// `sum_qty` over a prefix grows by exactly the next item's copies.
pub proof fn lemma_sum_qty_take_step(items: Seq<Item>, i: int)
    requires
        0 <= i < items.len(),
    ensures
        sum_qty(items.take(i + 1)) == sum_qty(items.take(i)) + items[i].qty,
{
    assert(items.take(i + 1).drop_last() =~= items.take(i));
    assert(items.take(i + 1).last() == items[i]);
}

/// Copy counts never sum to a negative number.
pub proof fn lemma_sum_qty_nonneg(items: Seq<Item>)
    ensures
        sum_qty(items) >= 0,
    decreases items.len(),
{
    if items.len() > 0 {
        lemma_sum_qty_nonneg(items.drop_last());
    }
}

/// A prefix never holds more copies than the whole.
pub proof fn lemma_sum_qty_take_bounds(items: Seq<Item>, i: int)
    requires
        0 <= i <= items.len(),
    ensures
        0 <= sum_qty(items.take(i)) <= sum_qty(items),
    decreases items.len() - i,
{
    lemma_sum_qty_nonneg(items.take(i));
    if i == items.len() {
        assert(items.take(i) =~= items);
    } else {
        lemma_sum_qty_take_step(items, i);
        lemma_sum_qty_take_bounds(items, i + 1);
    }
}

/// Flattened copy values of a value-descending inventory are descending, and
/// non-negative when the values are.
pub proof fn lemma_flat_sorted(items: Seq<Item>)
    requires
        sorted_desc(items),
    ensures
        vals_sorted_desc(flat_values(items)),
        items.len() > 0 ==> forall|t: int|
            0 <= t < flat_values(items).len()
                ==> #[trigger] flat_values(items)[t] >= items[items.len() - 1].value,
    decreases items.len(),
{
    if items.len() > 0 {
        let fdl = flat_values(items.drop_last());
        let rep = Seq::new(items.last().qty as nat, |t: int| items.last().value);
        let flat = flat_values(items);
        lemma_flat_sorted(items.drop_last());
        assert forall|t: int|
            0 <= t < flat.len() implies flat[t] >= items[items.len() - 1].value by {
            if t < fdl.len() {
                assert(items.len() >= 2);
                assert(fdl[t] >= items.drop_last()[items.len() - 2].value);
                assert(items[items.len() - 2].value >= items[items.len() - 1].value);
            } else {
                assert(flat[t] == rep[t - fdl.len()]);
            }
        }
        assert forall|i: int, j: int|
            0 <= i <= j < flat.len() implies flat[i] >= flat[j] by {
            if j < fdl.len() {
                assert(flat[i] == fdl[i]);
                assert(flat[j] == fdl[j]);
            } else {
                assert(flat[j] == rep[j - fdl.len()]);
                assert(flat[i] >= items[items.len() - 1].value);
            }
        }
    }
}

pub proof fn lemma_flat_nonneg(items: Seq<Item>)
    requires
        values_nonneg(items),
    ensures
        forall|t: int| 0 <= t < flat_values(items).len() ==> #[trigger] flat_values(items)[t] >= 0,
    decreases items.len(),
{
    if items.len() > 0 {
        let fdl = flat_values(items.drop_last());
        let rep = Seq::new(items.last().qty as nat, |t: int| items.last().value);
        let flat = flat_values(items);
        lemma_flat_nonneg(items.drop_last());
        assert forall|t: int| 0 <= t < flat.len() implies flat[t] >= 0 by {
            if t < fdl.len() {
                assert(flat[t] == fdl[t]);
            } else {
                assert(flat[t] == rep[t - fdl.len()]);
                assert(items[items.len() - 1].value >= 0);
            }
        }
    }
}

/// With non-negative entries, partial sums are non-negative and monotone.
pub proof fn lemma_sum_first_monotone(s: Seq<i64>, k1: int, k2: int)
    requires
        forall|t: int| 0 <= t < s.len() ==> #[trigger] s[t] >= 0,
        0 <= k1 <= k2 <= s.len(),
    ensures
        sum_first(s, k1) <= sum_first(s, k2),
        sum_first(s, k2) >= 0,
    decreases k2,
{
    if k1 < k2 {
        lemma_sum_first_monotone(s, k1, k2 - 1);
    } else if k2 > 0 {
        lemma_sum_first_monotone(s, k1 - 1, k2 - 1);
    }
}

/// A partial sum that stops inside the left part of a concatenation ignores
/// the right part.
pub proof fn lemma_sum_first_left(a: Seq<i64>, b: Seq<i64>, k: int)
    requires
        0 <= k <= a.len(),
    ensures
        sum_first(a + b, k) == sum_first(a, k),
    decreases k,
{
    if k > 0 {
        lemma_sum_first_left(a, b, k - 1);
        assert((a + b)[k - 1] == a[k - 1]);
    }
}

/// A partial sum that crosses a concatenation splits at the seam.
pub proof fn lemma_sum_first_concat(a: Seq<i64>, b: Seq<i64>, t: int)
    requires
        0 <= t <= b.len(),
    ensures
        sum_first(a + b, a.len() + t) == sum_first(a, a.len() as int) + sum_first(b, t),
    decreases t,
{
    if t == 0 {
        lemma_sum_first_left(a, b, a.len() as int);
    } else {
        lemma_sum_first_concat(a, b, t - 1);
        assert((a + b)[a.len() + t - 1] == b[t - 1]);
    }
}

/// Summing `t` entries of a constant-valued sequence.
pub proof fn lemma_sum_first_repeat(s: Seq<i64>, v: i64, t: int)
    requires
        0 <= t <= s.len(),
        forall|x: int| 0 <= x < s.len() ==> #[trigger] s[x] == v,
    ensures
        sum_first(s, t) == t * (v as int),
    decreases t,
{
    if t > 0 {
        lemma_sum_first_repeat(s, v, t - 1);
        assert(s[t - 1] == v);
        assert(sum_first(s, t) == sum_first(s, t - 1) + s[t - 1]);
        assert(t * (v as int) == (t - 1) * (v as int) + v) by (nonlinear_arith);
        assert(sum_first(s, t) == t * (v as int));
    } else {
        assert(sum_first(s, t) == 0);
        assert(t * (v as int) == 0) by (nonlinear_arith)
            requires t == 0;
    }
}

/// The whole flattening sums to the whole leftover value.
pub proof fn lemma_flat_total(items: Seq<Item>)
    ensures
        sum_first(flat_values(items), sum_qty(items)) == total_value(items),
    decreases items.len(),
{
    lemma_flat_len(items);
    if items.len() > 0 {
        let fdl = flat_values(items.drop_last());
        let rep = Seq::new(items.last().qty as nat, |t: int| items.last().value);
        lemma_flat_total(items.drop_last());
        lemma_flat_len(items.drop_last());
        lemma_sum_first_concat(fdl, rep, items.last().qty as int);
        lemma_sum_first_repeat(rep, items.last().value, items.last().qty as int);
        assert(items.last().qty as int * (items.last().value as int) == items.last().qty * items.last().value) by (nonlinear_arith);
    }
}

/// Law of the leftover-prefix table: its entries are the partial sums of the
/// flattened copy values; over a value-descending leftover those copy values
/// are themselves descending, so entry `k` is the sum of the `k` largest
/// leftover copy values; entry `0` is `0`; and the entries are monotone
/// non-decreasing.
pub proof fn law_leftover_prefix(leftover: Seq<Item>, k1: int, k2: int)
    requires
        sorted_desc(leftover),
        values_nonneg(leftover),
        0 <= k1 <= k2 <= sum_qty(leftover),
    ensures
        sum_first(flat_values(leftover), 0) == 0,
        vals_sorted_desc(flat_values(leftover)),
        sum_first(flat_values(leftover), k1) <= sum_first(flat_values(leftover), k2),
{
    lemma_flat_len(leftover);
    lemma_flat_sorted(leftover);
    lemma_flat_nonneg(leftover);
    lemma_sum_first_monotone(flat_values(leftover), k1, k2);
}

/// Builds the leftover-prefix table: entry `k` is the total value of the
/// first `k` leftover copies in item order (over a value-descending leftover,
/// the `k` highest-value copies).
pub fn build_leftover_prefix(leftover: &Vec<Item>) -> (p: Vec<i64>)
    requires
        values_nonneg(leftover@),
        0 <= total_value(leftover@) <= i64::MAX,
        sum_qty(leftover@) < usize::MAX,
    ensures
        p@.len() == sum_qty(leftover@) + 1,
        forall|k: int|
            0 <= k <= sum_qty(leftover@) ==> p@[k] == sum_first(flat_values(leftover@), k),
{
    let ghost flat = flat_values(leftover@);
    proof {
        lemma_flat_len(leftover@);
        lemma_flat_nonneg(leftover@);
    }
    let mut p: Vec<i64> = Vec::new();
    p.push(0);
    let mut i: usize = 0;
    while i < leftover.len()
        invariant
            0 <= i <= leftover@.len(),
            values_nonneg(leftover@),
            0 <= total_value(leftover@) <= i64::MAX,
            sum_qty(leftover@) < usize::MAX,
            flat == flat_values(leftover@),
            flat.len() == sum_qty(leftover@),
            forall|t: int| 0 <= t < flat.len() ==> #[trigger] flat[t] >= 0,
            p@.len() == sum_qty(leftover@.take(i as int)) + 1,
            p@.len() <= flat.len() + 1,
            forall|k: int| 0 <= k < p@.len() ==> p@[k] == sum_first(flat, k),
        decreases leftover@.len() - i,
    {
        let item = leftover[i];
        let mut c: u8 = 0;
        while c < item.qty
            invariant
                0 <= i < leftover@.len(),
                item == leftover@[i as int],
                0 <= c <= item.qty,
                values_nonneg(leftover@),
                0 <= total_value(leftover@) <= i64::MAX,
                sum_qty(leftover@) < usize::MAX,
                flat == flat_values(leftover@),
                flat.len() == sum_qty(leftover@),
                forall|t: int| 0 <= t < flat.len() ==> #[trigger] flat[t] >= 0,
                p@.len() == sum_qty(leftover@.take(i as int)) + c + 1,
                p@.len() <= flat.len() + 1,
                forall|k: int| 0 <= k < p@.len() ==> p@[k] == sum_first(flat, k),
            decreases item.qty - c,
        {
            proof {
                lemma_sum_qty_take_bounds(leftover@, i as int);
                lemma_sum_qty_take_step(leftover@, i as int);
                lemma_flat_index(leftover@, i as int, c as int);
                let k = p@.len() as int;
                assert(flat[k - 1] == item.value);
                lemma_sum_first_monotone(flat, k, flat.len() as int);
                lemma_flat_total(leftover@);
                lemma_sum_first_monotone(flat, 0, k - 1);
            }
            let last = p[p.len() - 1];
            p.push(last + item.value);
            c += 1;
        }
        proof {
            lemma_sum_qty_take_step(leftover@, i as int);
        }
        i += 1;
    }
    proof {
        assert(leftover@.take(leftover@.len() as int) =~= leftover@);
    }
    p
}

} // verus!
