//! Depth-first enumeration of every feasible multiset over one half of the
//! top items: every take vector whose total value stays within `max_value`
//! and whose copy count stays within `max_items`, each exactly once.

use vstd::prelude::*;
use vstd::arithmetic::div_mod::{lemma_div_is_ordered, lemma_div_by_multiple, lemma_fundamental_div_mod, lemma_mod_bound};
use vstd::arithmetic::mul::{lemma_mul_inequality, lemma_mul_nonnegative};
use crate::inventory::{Item, total_value, values_nonneg};

verus! {

/// One enumerated combination: its total value, its total copy count, and
/// how many copies of each item of the half it takes.
pub struct Combo {
    pub value: i64,
    pub count: u8,
    pub counts: Vec<u8>,
}

/// Total copies of a take vector.
pub open spec fn count_sum(v: Seq<u8>) -> int
    decreases v.len(),
{
    if v.len() == 0 {
        0
    } else {
        count_sum(v.drop_last()) + v.last()
    }
}

/// Total value of a take vector over its half: the sum of `v[i]` copies of
/// each item's value.
pub open spec fn weighted_sum(h: Seq<Item>, v: Seq<u8>) -> int
    decreases v.len(),
{
    if v.len() == 0 {
        0
    } else {
        weighted_sum(h, v.drop_last()) + v.last() * h[v.len() - 1].value
    }
}

/// A take vector the half admits: one slot per item, never more copies than
/// owned, total value within `max_value`, total copies within `max_items`.
pub open spec fn feasible(h: Seq<Item>, v: Seq<u8>, max_value: int, max_items: int) -> bool {
    &&& v.len() == h.len()
    &&& forall|i: int| 0 <= i < v.len() ==> v[i] <= h[i].qty
    &&& weighted_sum(h, v) <= max_value
    &&& count_sum(v) <= max_items
}

/// A well-formed record of one feasible combination.
pub open spec fn combo_ok(h: Seq<Item>, c: Combo, max_value: int, max_items: int) -> bool {
    &&& feasible(h, c.counts@, max_value, max_items)
    &&& c.value == weighted_sum(h, c.counts@)
    &&& c.count == count_sum(c.counts@)
}

pub proof fn lemma_count_step(v: Seq<u8>, i: int)
    requires
        0 <= i < v.len(),
    ensures
        count_sum(v.take(i + 1)) == count_sum(v.take(i)) + v[i],
{
    assert(v.take(i + 1).drop_last() =~= v.take(i));
    assert(v.take(i + 1).last() == v[i]);
}

pub proof fn lemma_count_take_le(v: Seq<u8>, i: int)
    requires
        0 <= i <= v.len(),
    ensures
        count_sum(v.take(i)) <= count_sum(v),
        count_sum(v.take(i)) >= 0,
    decreases v.len() - i,
{
    lemma_count_nonneg(v.take(i));
    if i == v.len() {
        assert(v.take(i) =~= v);
    } else {
        lemma_count_step(v, i);
        lemma_count_take_le(v, i + 1);
    }
}

pub proof fn lemma_count_nonneg(v: Seq<u8>)
    ensures
        count_sum(v) >= 0,
    decreases v.len(),
{
    if v.len() > 0 {
        lemma_count_nonneg(v.drop_last());
    }
}

/// `weighted_sum` reads only the first `v.len()` items of the half.
pub proof fn lemma_weighted_agree(h1: Seq<Item>, h2: Seq<Item>, v: Seq<u8>)
    requires
        v.len() <= h1.len(),
        v.len() <= h2.len(),
        forall|i: int| 0 <= i < v.len() ==> h1[i] == h2[i],
    ensures
        weighted_sum(h1, v) == weighted_sum(h2, v),
    decreases v.len(),
{
    if v.len() > 0 {
        lemma_weighted_agree(h1, h2, v.drop_last());
    }
}

pub proof fn lemma_weighted_step(h: Seq<Item>, v: Seq<u8>, i: int)
    requires
        0 <= i < v.len(),
        v.len() <= h.len(),
    ensures
        weighted_sum(h, v.take(i + 1)) == weighted_sum(h, v.take(i)) + v[i] * h[i].value,
{
    assert(v.take(i + 1).drop_last() =~= v.take(i));
    assert(v.take(i + 1).last() == v[i]);
}

pub proof fn lemma_weighted_nonneg(h: Seq<Item>, v: Seq<u8>)
    requires
        v.len() <= h.len(),
        values_nonneg(h),
    ensures
        weighted_sum(h, v) >= 0,
    decreases v.len(),
{
    if v.len() > 0 {
        lemma_weighted_nonneg(h, v.drop_last());
        lemma_mul_nonnegative(v.last() as int, h[v.len() - 1].value as int);
    }
}

pub proof fn lemma_weighted_take_le(h: Seq<Item>, v: Seq<u8>, i: int)
    requires
        0 <= i <= v.len(),
        v.len() <= h.len(),
        values_nonneg(h),
    ensures
        weighted_sum(h, v.take(i)) <= weighted_sum(h, v),
    decreases v.len() - i,
{
    if i == v.len() {
        assert(v.take(i) =~= v);
    } else {
        lemma_weighted_step(h, v, i);
        lemma_mul_nonnegative(v[i] as int, h[i].value as int);
        lemma_weighted_take_le(h, v, i + 1);
    }
}

/// A take vector bounded by the owned quantities is worth at most the whole
/// half.
pub proof fn lemma_weighted_le_total(h: Seq<Item>, v: Seq<u8>)
    requires
        v.len() == h.len(),
        values_nonneg(h),
        forall|i: int| 0 <= i < v.len() ==> v[i] <= h[i].qty,
    ensures
        weighted_sum(h, v) <= total_value(h),
    decreases v.len(),
{
    if v.len() > 0 {
        lemma_weighted_agree(h, h.drop_last(), v.drop_last());
        lemma_weighted_le_total(h.drop_last(), v.drop_last());
        lemma_mul_inequality(v.last() as int, h.last().qty as int, h.last().value as int);
    }
}

/// Law of zero-value items: two take vectors that differ only where the
/// item's value is zero are worth the same — zero-value copies never change
/// the total value, only the copy count, so they serve only the count window.
pub proof fn law_zero_value_items(h: Seq<Item>, v1: Seq<u8>, v2: Seq<u8>)
    requires
        v1.len() == v2.len(),
        v1.len() <= h.len(),
        forall|i: int| 0 <= i < v1.len() && h[i].value != 0 ==> v1[i] == v2[i],
    ensures
        weighted_sum(h, v1) == weighted_sum(h, v2),
    decreases v1.len(),
{
    if v1.len() > 0 {
        assert forall|i: int|
            0 <= i < v1.len() - 1 && h[i].value != 0
                implies v1.drop_last()[i] == v2.drop_last()[i] by {
            assert(v1[i] == v2[i]);
        }
        law_zero_value_items(h, v1.drop_last(), v2.drop_last());
        if h[v1.len() - 1].value == 0 {
            assert(v1.last() * h[v1.len() - 1].value == 0) by (nonlinear_arith)
                requires h[v1.len() - 1].value == 0;
            assert(v2.last() * h[v2.len() - 1].value == 0) by (nonlinear_arith)
                requires h[v2.len() - 1].value == 0;
        } else {
            assert(v1.last() == v2.last());
        }
    }
}

/// An all-zero take vector is feasible whenever the windows are non-negative:
/// it takes nothing, is worth nothing, and counts nothing.
pub proof fn lemma_zero_vec_feasible(h: Seq<Item>, v: Seq<u8>, max_value: int, max_items: int)
    requires
        v.len() == h.len(),
        forall|i: int| 0 <= i < v.len() ==> #[trigger] v[i] == 0u8,
        max_value >= 0,
        max_items >= 0,
    ensures
        feasible(h, v, max_value, max_items),
        weighted_sum(h, v) == 0,
        count_sum(v) == 0,
{
    lemma_zero_vec_sums(v, h);
}

proof fn lemma_zero_vec_sums(v: Seq<u8>, h: Seq<Item>)
    requires
        v.len() <= h.len(),
        forall|i: int| 0 <= i < v.len() ==> #[trigger] v[i] == 0u8,
    ensures
        weighted_sum(h, v) == 0,
        count_sum(v) == 0,
    decreases v.len(),
{
    if v.len() > 0 {
        lemma_zero_vec_sums(v.drop_last(), h);
        assert(v.last() == 0u8);
    }
}

/// If `x * d <= y` with positive `d`, then `x` is at most `y / d`.
proof fn lemma_le_quotient(x: int, y: int, d: int)
    requires
        0 < d,
        0 <= x,
        x * d <= y,
    ensures
        x <= y / d,
{
    lemma_div_is_ordered(x * d, y, d);
    lemma_div_by_multiple(x, d);
}

/// If `x <= y / d` with positive `d` and non-negative `y`, then `x * d <= y`.
proof fn lemma_quotient_mul_le(x: int, y: int, d: int)
    requires
        0 < d,
        0 <= y,
        0 <= x <= y / d,
    ensures
        x * d <= y,
{
    lemma_mul_inequality(x, y / d, d);
    lemma_fundamental_div_mod(y, d);
    lemma_mod_bound(y, d);
}

/// Depth-first enumeration below one fixed take prefix: appends to `out`
/// exactly one record for every feasible completion of `counts`.
fn enumerate_rec(
    h: &Vec<Item>,
    max_value: i64,
    max_items: u8,
    i: usize,
    val: i64,
    cnt: u8,
    counts: &mut Vec<u8>,
    out: &mut Vec<Combo>,
)
    requires
        values_nonneg(h@),
        max_value >= 0,
        i <= h@.len(),
        old(counts)@.len() == i,
        forall|t: int| 0 <= t < i ==> old(counts)@[t] <= h@[t].qty,
        val == weighted_sum(h@, old(counts)@),
        cnt == count_sum(old(counts)@),
        val <= max_value,
        cnt <= max_items,
    ensures
        final(counts)@ == old(counts)@,
        final(out)@.len() >= old(out)@.len(),
        forall|t: int| 0 <= t < old(out)@.len() ==> final(out)@[t] == old(out)@[t],
        forall|t: int|
            old(out)@.len() <= t < final(out)@.len()
                ==> combo_ok(h@, #[trigger] final(out)@[t], max_value as int, max_items as int),
        forall|t: int|
            old(out)@.len() <= t < final(out)@.len()
                ==> (#[trigger] final(out)@[t]).counts@.take(i as int) == old(counts)@,
        forall|v: Seq<u8>|
            #[trigger] feasible(h@, v, max_value as int, max_items as int)
                && v.take(i as int) == old(counts)@
                ==> exists|t: int| old(out)@.len() <= t < final(out)@.len() && (#[trigger] final(out)@[t]).counts@ == v,
        forall|t1: int, t2: int|
            old(out)@.len() <= t1 < t2 < final(out)@.len()
                ==> (#[trigger] final(out)@[t1]).counts@ != (#[trigger] final(out)@[t2]).counts@,
    decreases h@.len() - i,
{
    proof {
        lemma_weighted_nonneg(h@, old(counts)@);
    }
    if i == h.len() {
        let mut cc: Vec<u8> = Vec::new();
        let mut t: usize = 0;
        while t < counts.len()
            invariant
                t <= counts@.len(),
                cc@ == counts@.take(t as int),
            decreases counts@.len() - t,
        {
            proof {
                assert(counts@.take(t + 1) =~= counts@.take(t as int).push(counts@[t as int]));
            }
            cc.push(counts[t]);
            t += 1;
        }
        proof {
            assert(cc@ =~= counts@);
        }
        out.push(Combo { value: val, count: cnt, counts: cc });
        proof {
            let n = out@.len() - 1;
            assert(out@[n].counts@ == counts@);
            assert forall|v: Seq<u8>|
                #[trigger] feasible(h@, v, max_value as int, max_items as int)
                    && v.take(i as int) == counts@
                    implies exists|t2: int| n <= t2 < out@.len() && (#[trigger] out@[t2]).counts@ == v by {
                assert(v.take(i as int) =~= v);
                assert(out@[n].counts@ == v);
            }
            assert(out@[n].counts@.take(i as int) =~= counts@);
        }
    } else {
        let hl: usize = h.len();
        let item = h[i];
        let cap_items: u8 = max_items - cnt;
        let mt: u8 = if item.value == 0 {
            if cap_items < item.qty {
                cap_items
            } else {
                item.qty
            }
        } else {
            let room: u64 = ((max_value - val) as u64) / (item.value as u64);
            let cap: u8 = if cap_items < item.qty {
                cap_items
            } else {
                item.qty
            };
            if room < cap as u64 {
                room as u8
            } else {
                cap
            }
        };
        let ghost prefix = counts@;
        let ghost out0 = out@;
        let ghost room_g: int = if item.value == 0 { 0int } else { (max_value - val) as int / (item.value as int) };
        proof {
            if item.value != 0 {
                assert(room_g >= 0) by {
                    lemma_le_quotient(0, (max_value - val) as int, item.value as int);
                }
            }
        }
        let mut take: u16 = 0;
        while take <= mt as u16
            invariant
                values_nonneg(h@),
                max_value >= 0,
                i < h@.len(),
                hl == h@.len(),
                item == h@[i as int],
                counts@ == prefix,
                prefix.len() == i,
                forall|t: int| 0 <= t < i ==> prefix[t] <= h@[t].qty,
                val == weighted_sum(h@, prefix),
                cnt == count_sum(prefix),
                0 <= val <= max_value,
                cnt <= max_items,
                cap_items == max_items - cnt,
                mt <= item.qty,
                mt as int <= cap_items as int,
                item.value != 0 ==> mt as int <= room_g,
                item.value != 0 ==> room_g == (max_value - val) as int / (item.value as int),
                item.value != 0 ==> (mt as int == room_g || mt == if cap_items < item.qty { cap_items } else { item.qty }),
                item.value == 0 ==> mt == if cap_items < item.qty { cap_items } else { item.qty },
                take <= mt as u16 + 1,
                out@.len() >= out0.len(),
                forall|t: int| 0 <= t < out0.len() ==> out@[t] == out0[t],
                forall|t: int|
                    out0.len() <= t < out@.len()
                        ==> combo_ok(h@, #[trigger] out@[t], max_value as int, max_items as int),
                forall|t: int|
                    out0.len() <= t < out@.len()
                        ==> (#[trigger] out@[t]).counts@.take(i as int) == prefix
                            && i < out@[t].counts@.len()
                            && out@[t].counts@[i as int] < take,
                forall|v: Seq<u8>|
                    #[trigger] feasible(h@, v, max_value as int, max_items as int)
                        && v.take(i as int) == prefix
                        && v[i as int] < take
                        ==> exists|t: int| out0.len() <= t < out@.len() && (#[trigger] out@[t]).counts@ == v,
                forall|t1: int, t2: int|
                    out0.len() <= t1 < t2 < out@.len()
                        ==> (#[trigger] out@[t1]).counts@ != (#[trigger] out@[t2]).counts@,
            decreases mt as int + 1 - take as int,
        {
            let tk: u8 = take as u8;
            proof {
                if item.value != 0 {
                    lemma_quotient_mul_le(tk as int, (max_value - val) as int, item.value as int);
                } else {
                    assert(tk as int * (item.value as int) == 0) by (nonlinear_arith)
                        requires item.value == 0;
                }
                lemma_mul_nonnegative(tk as int, item.value as int);
            }
            let new_val: i64 = val + (tk as i64) * item.value;
            let new_cnt: u8 = cnt + tk;
            counts.push(tk);
            proof {
                assert(counts@.take(i as int) =~= prefix);
                assert(weighted_sum(h@, counts@) == val + tk * item.value) by {
                    assert(counts@.drop_last() =~= prefix);
                }
                assert(count_sum(counts@) == cnt + tk) by {
                    assert(counts@.drop_last() =~= prefix);
                }
            }
            let ghost out_before = out@;
            enumerate_rec(h, max_value, max_items, i + 1, new_val, new_cnt, counts, out);
            counts.pop();
            proof {
                assert(counts@ =~= prefix);
                let ext = prefix.push(tk);
                assert forall|t: int|
                    out0.len() <= t < out@.len()
                        implies (#[trigger] out@[t]).counts@.take(i as int) == prefix
                            && i < out@[t].counts@.len()
                            && out@[t].counts@[i as int] < take + 1 by {
                    if t < out_before.len() {
                        assert(out@[t] == out_before[t]);
                    } else {
                        assert(out@[t].counts@.take(i + 1 as int) == ext);
                        assert(out@[t].counts@.len() >= i + 1) by {
                            assert(out@[t].counts@.take(i + 1 as int).len() == i + 1);
                        }
                        assert(out@[t].counts@[i as int] == ext[i as int]);
                        assert(out@[t].counts@.take(i as int) =~= ext.take(i as int));
                        assert(ext.take(i as int) =~= prefix);
                    }
                }
                assert forall|v: Seq<u8>|
                    #[trigger] feasible(h@, v, max_value as int, max_items as int)
                        && v.take(i as int) == prefix
                        && v[i as int] < take + 1
                        implies exists|t: int| out0.len() <= t < out@.len() && (#[trigger] out@[t]).counts@ == v by {
                    if v[i as int] == tk {
                        assert(v.take(i + 1 as int) =~= prefix.push(tk)) by {
                            assert(v.take(i + 1 as int).drop_last() =~= v.take(i as int));
                        }
                        let t = choose|t: int|
                            out_before.len() <= t < out@.len() && (#[trigger] out@[t]).counts@ == v;
                        assert(out0.len() <= t < out@.len());
                    } else {
                        let t = choose|t: int|
                            out0.len() <= t < out_before.len() && (#[trigger] out_before[t]).counts@ == v;
                        assert(out@[t] == out_before[t]);
                    }
                }
            }
            take += 1;
        }
        proof {
            assert forall|v: Seq<u8>|
                #[trigger] feasible(h@, v, max_value as int, max_items as int)
                    && v.take(i as int) == prefix
                    implies exists|t: int| out0.len() <= t < out@.len() && (#[trigger] out@[t]).counts@ == v by {
                let vi = v[i as int];
                lemma_count_step(v, i as int);
                lemma_count_take_le(v, i + 1 as int);
                assert(count_sum(v.take(i as int)) == cnt);
                assert(vi <= max_items - cnt);
                lemma_weighted_step(h@, v, i as int);
                lemma_weighted_take_le(h@, v, i + 1 as int);
                assert(weighted_sum(h@, v.take(i as int)) == val);
                assert(val + vi * item.value <= max_value);
                if item.value != 0 {
                    lemma_mul_nonnegative(vi as int, item.value as int);
                    lemma_le_quotient(vi as int, (max_value - val) as int, item.value as int);
                    assert(vi as int <= room_g);
                }
                assert(vi <= mt);
                assert(v[i as int] < take);
            }
        }
    }
}

/// Enumerates every feasible combination over the half `h`: each record is
/// well formed, every feasible take vector appears, and no take vector
/// appears twice.
pub fn enumerate_combos(h: &Vec<Item>, max_value: i64, max_items: u8) -> (out: Vec<Combo>)
    requires
        values_nonneg(h@),
        max_value >= 0,
    ensures
        forall|t: int|
            0 <= t < out@.len()
                ==> combo_ok(h@, #[trigger] out@[t], max_value as int, max_items as int),
        forall|v: Seq<u8>|
            #[trigger] feasible(h@, v, max_value as int, max_items as int)
                ==> exists|t: int| 0 <= t < out@.len() && (#[trigger] out@[t]).counts@ == v,
        forall|t1: int, t2: int|
            0 <= t1 < t2 < out@.len()
                ==> (#[trigger] out@[t1]).counts@ != (#[trigger] out@[t2]).counts@,
{
    let mut counts: Vec<u8> = Vec::new();
    let mut out: Vec<Combo> = Vec::new();
    proof {
        assert(counts@ =~= Seq::<u8>::empty());
        assert(weighted_sum(h@, counts@) == 0);
        assert(count_sum(counts@) == 0);
    }
    enumerate_rec(h, max_value, max_items, 0, 0, 0, &mut counts, &mut out);
    proof {
        assert forall|v: Seq<u8>|
            #[trigger] feasible(h@, v, max_value as int, max_items as int)
                implies exists|t: int| 0 <= t < out@.len() && (#[trigger] out@[t]).counts@ == v by {
            assert(v.take(0) =~= Seq::<u8>::empty());
        }
    }
    out
}

} // verus!
