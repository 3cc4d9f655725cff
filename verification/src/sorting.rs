//! Ordering the inventory (highest value first) and the combination sets
//! (lowest total first), while keeping every fact the rest of the pipeline
//! needs: the same elements, the same totals, and identifier uniqueness.

use vstd::prelude::*;
use vstd::multiset::Multiset;
use crate::inventory::{Item, total_value, sum_qty, sorted_desc, unique_ids};
use crate::enumerate::Combo;

verus! {

/// Removing one item takes exactly its contribution out of `total_value`.
proof fn lemma_total_value_remove(s: Seq<Item>, i: int)
    requires
        0 <= i < s.len(),
    ensures
        total_value(s.remove(i)) == total_value(s) - s[i].qty * s[i].value,
    decreases s.len(),
{
    s.remove_ensures(i);
    if i == s.len() - 1 {
        assert(s.remove(i) =~= s.drop_last());
    } else {
        assert(s.remove(i).drop_last() =~= s.drop_last().remove(i));
        lemma_total_value_remove(s.drop_last(), i);
        assert(s.remove(i).last() == s.last());
    }
}

/// Removing one item takes exactly its copies out of `sum_qty`.
proof fn lemma_sum_qty_remove(s: Seq<Item>, i: int)
    requires
        0 <= i < s.len(),
    ensures
        sum_qty(s.remove(i)) == sum_qty(s) - s[i].qty,
    decreases s.len(),
{
    s.remove_ensures(i);
    if i == s.len() - 1 {
        assert(s.remove(i) =~= s.drop_last());
    } else {
        assert(s.remove(i).drop_last() =~= s.drop_last().remove(i));
        lemma_sum_qty_remove(s.drop_last(), i);
        assert(s.remove(i).last() == s.last());
    }
}

/// Sorts the inventory by value, highest first. The result holds exactly the
/// elements of the input (so every later fact about a sorted item carries
/// back to an owned item), with the same value and copy totals, and with
/// identifiers still unique when they were unique before.
pub fn sort_items_desc(items: Vec<Item>) -> (r: Vec<Item>)
    ensures
        r@.len() == items@.len(),
        sorted_desc(r@),
        r@.to_multiset() == items@.to_multiset(),
        forall|x: Item| r@.contains(x) <==> items@.contains(x),
        total_value(r@) == total_value(items@),
        sum_qty(r@) == sum_qty(items@),
        unique_ids(items@) ==> unique_ids(r@),
{
    let ghost orig = items@;
    let mut work = items;
    let mut result: Vec<Item> = Vec::new();
    proof {
        broadcast use vstd::multiset::group_multiset_axioms;
        result@.to_multiset_ensures();
        assert(result@.to_multiset() =~= Multiset::<Item>::empty());
        assert(result@.to_multiset().add(work@.to_multiset()) =~= work@.to_multiset());
    }
    while work.len() > 0
        invariant
            result@.len() + work@.len() == orig.len(),
            result@.to_multiset().add(work@.to_multiset()) == orig.to_multiset(),
            sorted_desc(result@),
            forall|i: int, j: int|
                0 <= i < result@.len() && 0 <= j < work@.len()
                    ==> result@[i].value >= work@[j].value,
            total_value(result@) + total_value(work@) == total_value(orig),
            sum_qty(result@) + sum_qty(work@) == sum_qty(orig),
            forall|x: Item| result@.contains(x) ==> orig.contains(x),
            forall|x: Item| work@.contains(x) ==> orig.contains(x),
            forall|x: Item| orig.contains(x) ==> result@.contains(x) || work@.contains(x),
            unique_ids(orig) ==> unique_ids(result@),
            unique_ids(orig) ==> unique_ids(work@),
            unique_ids(orig) ==> forall|i: int, j: int|
                0 <= i < result@.len() && 0 <= j < work@.len()
                    ==> result@[i].item_id != work@[j].item_id,
        decreases work@.len(),
    {
        let mut best: usize = 0;
        let mut j: usize = 1;
        while j < work.len()
            invariant
                best < work@.len(),
                1 <= j <= work@.len(),
                forall|t: int| 0 <= t < j ==> work@[best as int].value >= work@[t].value,
            decreases work@.len() - j,
        {
            if work[j].value > work[best].value {
                best = j;
            }
            j += 1;
        }
        let ghost pre = work@;
        let ghost pre_res = result@;
        let picked = work.remove(best);
        result.push(picked);
        proof {
            assert(result@.drop_last() =~= pre_res);
            assert(result@.last() == picked);
            pre.remove_ensures(best as int);
            broadcast use vstd::multiset::group_multiset_axioms;
            assert(pre[best as int] == picked);
            assert(pre.contains(picked));
            vstd::seq_lib::to_multiset_contains(pre, picked);
            vstd::seq_lib::to_multiset_remove(pre, best as int);
            vstd::seq_lib::to_multiset_build(pre_res, picked);
            assert(result@ =~= pre_res.push(picked));
            assert(result@.to_multiset() == pre_res.push(picked).to_multiset());
            assert(work@.to_multiset() == pre.to_multiset().remove(picked));
            assert(result@.to_multiset().add(work@.to_multiset()) =~= orig.to_multiset());
            lemma_total_value_remove(pre, best as int);
            lemma_sum_qty_remove(pre, best as int);
            assert(pre.contains(picked)) by {
                assert(pre[best as int] == picked);
            }
            assert forall|x: Item| work@.contains(x) implies pre.contains(x) by {
                let t = choose|t: int| 0 <= t < work@.len() && work@[t] == x;
                if t < best as int {
                    assert(pre[t] == x);
                } else {
                    assert(pre[t + 1] == x);
                }
            }
            assert forall|x: Item| pre.contains(x) implies work@.contains(x) || x == picked by {
                let t = choose|t: int| 0 <= t < pre.len() && pre[t] == x;
                if t < best as int {
                    assert(work@[t] == x);
                } else if t > best as int {
                    assert(work@[t - 1] == x);
                }
            }
            if unique_ids(orig) {
                assert forall|i: int, j2: int|
                    0 <= i < j2 < work@.len() implies work@[i].item_id != work@[j2].item_id by {
                    let pi = if i < best as int { i } else { i + 1 };
                    let pj = if j2 < best as int { j2 } else { j2 + 1 };
                    assert(work@[i] == pre[pi]);
                    assert(work@[j2] == pre[pj]);
                }
                assert forall|j2: int|
                    0 <= j2 < work@.len() implies picked.item_id != work@[j2].item_id by {
                    let pj = if j2 < best as int { j2 } else { j2 + 1 };
                    assert(work@[j2] == pre[pj]);
                    assert(pre[best as int] == picked);
                }
            }
        }
    }
    proof {
        broadcast use vstd::multiset::group_multiset_axioms;
        work@.to_multiset_ensures();
        assert(work@.to_multiset() =~= Multiset::<Item>::empty());
        assert(result@.to_multiset() =~= orig.to_multiset());
    }
    result
}

/// Sorts a combination set by total value, lowest first, keeping exactly the
/// same combinations: the scan of the joined halves walks them in value
/// order.
pub fn sort_combos_asc(cs: Vec<Combo>) -> (r: Vec<Combo>)
    ensures
        r@.len() == cs@.len(),
        forall|i: int, j: int| 0 <= i <= j < r@.len() ==> r@[i].value <= r@[j].value,
        r@.to_multiset() == cs@.to_multiset(),
        forall|x: Combo| r@.contains(x) <==> cs@.contains(x),
{
    let ghost orig = cs@;
    let mut work = cs;
    let mut result: Vec<Combo> = Vec::new();
    proof {
        broadcast use vstd::multiset::group_multiset_axioms;
        result@.to_multiset_ensures();
        assert(result@.to_multiset() =~= Multiset::<Combo>::empty());
        assert(result@.to_multiset().add(work@.to_multiset()) =~= work@.to_multiset());
    }
    while work.len() > 0
        invariant
            result@.len() + work@.len() == orig.len(),
            result@.to_multiset().add(work@.to_multiset()) == orig.to_multiset(),
            forall|i: int, j: int| 0 <= i <= j < result@.len() ==> result@[i].value <= result@[j].value,
            forall|i: int, j: int|
                0 <= i < result@.len() && 0 <= j < work@.len()
                    ==> result@[i].value <= work@[j].value,
            forall|x: Combo| result@.contains(x) ==> orig.contains(x),
            forall|x: Combo| work@.contains(x) ==> orig.contains(x),
            forall|x: Combo| orig.contains(x) ==> result@.contains(x) || work@.contains(x),
        decreases work@.len(),
    {
        let mut best: usize = 0;
        let mut j: usize = 1;
        while j < work.len()
            invariant
                best < work@.len(),
                1 <= j <= work@.len(),
                forall|t: int| 0 <= t < j ==> work@[best as int].value <= work@[t].value,
            decreases work@.len() - j,
        {
            if work[j].value < work[best].value {
                best = j;
            }
            j += 1;
        }
        let ghost pre = work@;
        let ghost pre_res = result@;
        let picked = work.remove(best);
        result.push(picked);
        proof {
            assert(result@.drop_last() =~= pre_res);
            assert(result@.last() == picked);
            pre.remove_ensures(best as int);
            broadcast use vstd::multiset::group_multiset_axioms;
            assert(pre[best as int] == picked);
            assert(pre.contains(picked));
            vstd::seq_lib::to_multiset_contains(pre, picked);
            vstd::seq_lib::to_multiset_remove(pre, best as int);
            vstd::seq_lib::to_multiset_build(pre_res, picked);
            assert(result@ =~= pre_res.push(picked));
            assert(result@.to_multiset() == pre_res.push(picked).to_multiset());
            assert(work@.to_multiset() == pre.to_multiset().remove(picked));
            assert(result@.to_multiset().add(work@.to_multiset()) =~= orig.to_multiset());
            assert(pre.contains(picked)) by {
                assert(pre[best as int] == picked);
            }
            assert forall|x: Combo| work@.contains(x) implies pre.contains(x) by {
                let t = choose|t: int| 0 <= t < work@.len() && work@[t] == x;
                if t < best as int {
                    assert(pre[t] == x);
                } else {
                    assert(pre[t + 1] == x);
                }
            }
            assert forall|x: Combo| pre.contains(x) implies work@.contains(x) || x == picked by {
                let t = choose|t: int| 0 <= t < pre.len() && pre[t] == x;
                if t < best as int {
                    assert(work@[t] == x);
                } else if t > best as int {
                    assert(work@[t - 1] == x);
                }
            }
        }
    }
    proof {
        broadcast use vstd::multiset::group_multiset_axioms;
        work@.to_multiset_ensures();
        assert(work@.to_multiset() =~= Multiset::<Combo>::empty());
        assert(result@.to_multiset() =~= orig.to_multiset());
    }
    result
}

} // verus!
