//! The whole selection pipeline: order the inventory, split off the top
//! items, build the leftover-prefix table, enumerate both halves, join them,
//! and materialize the winning selection.

use vstd::prelude::*;
use crate::inventory::{
    Item, Query, query_ok, total_value, sum_qty, values_nonneg, unique_ids, sorted_desc,
    lemma_total_value_nonneg, lemma_total_value_split, lemma_sum_qty_split,
};
use crate::sorting::{sort_items_desc, sort_combos_asc};
use crate::prefix::{
    build_leftover_prefix, flat_values, sum_first, lemma_flat_len, lemma_flat_nonneg,
    lemma_flat_total, lemma_sum_first_monotone, lemma_sum_qty_nonneg,
};
use crate::enumerate::{
    enumerate_combos, combo_ok, feasible, weighted_sum, Combo, lemma_weighted_nonneg,
    lemma_weighted_agree, lemma_weighted_le_total, lemma_zero_vec_feasible,
};
use crate::combine::{
    combine, eval, best_cand, midpoint, dist_to, law_best_minimal, law_empty_selection_wins,
    lemma_eval_fields, abstract_best, prefix_table_ok, combos_bounded,
};
use crate::assemble::{
    assemble, take_vec, fill_seq, assemble_spec, picks_qty, picks_value, Pick,
    lemma_assemble_sums, lemma_assemble_entries, lemma_fill_seq, lemma_fill_len,
    lemma_count_concat, lemma_weighted_concat, lemma_picks_qty_pos,
};

verus! {

/// How many of the highest-value items are enumerated combinatorially; the
/// rest of the inventory only serves as filler.
pub const TOP_N: usize = 50;

/// How many items go to the top for an inventory of `n` items.
pub open spec fn top_len(n: int) -> int {
    if n < 50 {
        n
    } else {
        50
    }
}

/// A value-descending arrangement of the owned items: the same items, highest
/// value first.
pub open spec fn sorted_arrangement(items: Seq<Item>, s: Seq<Item>) -> bool {
    &&& s.to_multiset() == items.to_multiset()
    &&& s.len() == items.len()
    &&& sorted_desc(s)
}

/// The leftover-prefix table of a leftover, as a sequence: entry `k` is the
/// value of the first `k` leftover copies.
pub open spec fn prefix_seq(lo: Seq<Item>) -> Seq<i64> {
    Seq::new((sum_qty(lo) + 1) as nat, |k: int| sum_first(flat_values(lo), k) as i64)
}

/// A complete enumeration of one half of the top items: every record well
/// formed, and every feasible take vector present.
pub open spec fn half_enumeration(h: Seq<Item>, cs: Seq<Combo>, q: Query) -> bool {
    &&& forall|t: int|
        0 <= t < cs.len()
            ==> combo_ok(h, #[trigger] cs[t], q.max_value as int, q.max_items as int)
    &&& forall|v: Seq<u8>|
        #[trigger] feasible(h, v, q.max_value as int, q.max_items as int)
            ==> exists|t: int| 0 <= t < cs.len() && (#[trigger] cs[t]).counts@ == v
}

/// What the returned selection is. Over the arrangement `s` of the inventory,
/// with both halves of the top items exhaustively enumerated (the first half
/// scanned in ascending value order) and the leftover-prefix table built from
/// the rest, the picks are exactly the assembly of the scan's winning
/// candidate — empty when the scan admits no pair at all — and the winner's
/// distance to the value-window midpoint is minimal among every pair the
/// model admits.
pub open spec fn selection_model(
    items: Seq<Item>,
    q: Query,
    s: Seq<Item>,
    ca: Seq<Combo>,
    cb: Seq<Combo>,
    picks: Seq<Pick>,
) -> bool {
    let top_n = top_len(items.len() as int);
    let mid = top_n / 2;
    let p = prefix_seq(s.skip(top_n));
    &&& sorted_arrangement(items, s)
    &&& half_enumeration(s.take(mid), ca, q)
    &&& half_enumeration(s.subrange(mid, top_n), cb, q)
    &&& (forall|i: int, j: int| 0 <= i <= j < ca.len() ==> ca[i].value <= ca[j].value)
    &&& match best_cand(ca, cb, p, q) {
        None => {
            &&& picks == Seq::<Pick>::empty()
            &&& forall|i: int, j: int|
                0 <= i < ca.len() && 0 <= j < cb.len()
                    ==> #[trigger] eval(ca[i], cb[j], p, q) is None
        },
        Some(c) => {
            &&& 0 <= c.a_idx < ca.len()
            &&& 0 <= c.b_idx < cb.len()
            &&& picks == assemble_spec(
                s,
                take_vec(s, top_n, ca[c.a_idx].counts@, cb[c.b_idx].counts@, c.k),
            )
            &&& picks_value(picks) == c.val
            &&& picks_qty(picks) == c.cnt
            &&& c.dist == dist_to(c.val, midpoint(q))
            &&& forall|i: int, j: int|
                0 <= i < ca.len() && 0 <= j < cb.len()
                    && #[trigger] eval(ca[i], cb[j], p, q) is Some
                    ==> c.dist <= dist_to(eval(ca[i], cb[j], p, q).unwrap().0, midpoint(q))
        },
    }
}

/// Law of determinism: for one input, one arrangement and one scan order, the
/// model pins the returned mapping — two selections that both satisfy it are
/// equal.
pub proof fn law_deterministic(
    items: Seq<Item>,
    q: Query,
    s: Seq<Item>,
    ca: Seq<Combo>,
    cb: Seq<Combo>,
    picks1: Seq<Pick>,
    picks2: Seq<Pick>,
)
    requires
        selection_model(items, q, s, ca, cb, picks1),
        selection_model(items, q, s, ca, cb, picks2),
    ensures
        picks1 == picks2,
{
}

/// Law of the empty selection carried to the result: when nothing is owed
/// (no value or count minimum) and the midpoint is zero, the empty selection
/// competes and wins — the returned selection's total value is zero, at
/// distance zero from the midpoint.
pub proof fn law_empty_selection_outcome(
    items: Seq<Item>,
    q: Query,
    s: Seq<Item>,
    ca: Seq<Combo>,
    cb: Seq<Combo>,
    picks: Seq<Pick>,
)
    requires
        selection_model(items, q, s, ca, cb, picks),
        query_ok(q),
        q.min_value == 0,
        q.min_items == 0,
        midpoint(q) == 0,
    ensures
        picks_value(picks) == 0,
        dist_to(picks_value(picks), midpoint(q)) == 0,
{
    let top_n = top_len(items.len() as int);
    let mid = top_n / 2;
    let p = prefix_seq(s.skip(top_n));
    let h1 = s.take(mid);
    let h2 = s.subrange(mid, top_n);
    let z1 = Seq::new(h1.len(), |t: int| 0u8);
    let z2 = Seq::new(h2.len(), |t: int| 0u8);
    lemma_zero_vec_feasible(h1, z1, q.max_value as int, q.max_items as int);
    lemma_zero_vec_feasible(h2, z2, q.max_value as int, q.max_items as int);
    let i = choose|t: int| 0 <= t < ca.len() && (#[trigger] ca[t]).counts@ == z1;
    let j = choose|t: int| 0 <= t < cb.len() && (#[trigger] cb[t]).counts@ == z2;
    assert(combo_ok(h1, ca[i], q.max_value as int, q.max_items as int));
    assert(combo_ok(h2, cb[j], q.max_value as int, q.max_items as int));
    assert(ca[i].value == 0 && ca[i].count == 0);
    assert(cb[j].value == 0 && cb[j].count == 0);
    law_empty_selection_wins(ca, cb, p, q, i, j);
}

/// Selects a multiset of the owned items whose total value lies in
/// `[min_value, max_value]` and whose total copy count lies in
/// `[min_items, max_items]`, preferring totals closest to the value window's
/// midpoint, as reached by the top-items plus leftover-prefix model. Returns
/// the selection as strictly-positive (item, quantity) entries — empty when
/// the model admits no selection.
#[verifier::rlimit(100)]
pub fn find_selection(items: Vec<Item>, q: Query) -> (picks: Vec<Pick>)
    requires
        values_nonneg(items@),
        unique_ids(items@),
        query_ok(q),
        q.min_value + q.max_value <= i64::MAX,
        q.max_value + total_value(items@) <= i64::MAX,
        sum_qty(items@) < usize::MAX,
    ensures
        forall|n: int| 0 <= n < picks@.len() ==> (#[trigger] picks@[n]).qty > 0,
        forall|n: int|
            0 <= n < picks@.len() ==> exists|i: int|
                0 <= i < items@.len() && items@[i].item_id == (#[trigger] picks@[n]).item_id
                    && items@[i].value == picks@[n].value && picks@[n].qty <= items@[i].qty,
        forall|n1: int, n2: int|
            0 <= n1 < n2 < picks@.len() ==> picks@[n1].item_id != picks@[n2].item_id,
        picks@.len() > 0 ==> q.min_value <= picks_value(picks@) <= q.max_value,
        picks@.len() > 0 ==> q.min_items <= picks_qty(picks@) <= q.max_items,
        q.max_items == 0 ==> picks@.len() == 0,
        total_value(items@) < q.min_value ==> picks@.len() == 0,
        exists|s: Seq<Item>, ca: Seq<Combo>, cb: Seq<Combo>|
            selection_model(items@, q, s, ca, cb, picks@),
{
    let ghost orig = items@;
    proof {
        lemma_total_value_nonneg(orig);
    }
    let sorted = sort_items_desc(items);
    proof {
        assert forall|i: int| 0 <= i < sorted@.len() implies (#[trigger] sorted@[i]).value >= 0 by {
            assert(sorted@.contains(sorted@[i]));
            let j = choose|j: int| 0 <= j < orig.len() && orig[j] == sorted@[i];
        }
    }
    let n = sorted.len();
    let top_n = if n < TOP_N { n } else { TOP_N };
    let mid = top_n / 2;
    let mut ha: Vec<Item> = Vec::new();
    let mut i: usize = 0;
    while i < mid
        invariant
            0 <= i <= mid <= sorted@.len(),
            ha@ == sorted@.subrange(0, i as int),
        decreases mid - i,
    {
        ha.push(sorted[i]);
        proof {
            assert(ha@ =~= sorted@.subrange(0, i + 1));
        }
        i += 1;
    }
    let mut hb: Vec<Item> = Vec::new();
    while i < top_n
        invariant
            mid <= i <= top_n <= sorted@.len(),
            hb@ == sorted@.subrange(mid as int, i as int),
        decreases top_n - i,
    {
        hb.push(sorted[i]);
        proof {
            assert(hb@ =~= sorted@.subrange(mid as int, i + 1));
        }
        i += 1;
    }
    let mut lo: Vec<Item> = Vec::new();
    while i < n
        invariant
            top_n <= i <= n == sorted@.len(),
            lo@ == sorted@.subrange(top_n as int, i as int),
        decreases n - i,
    {
        lo.push(sorted[i]);
        proof {
            assert(lo@ =~= sorted@.subrange(top_n as int, i + 1));
        }
        i += 1;
    }
    proof {
        assert(ha@ =~= sorted@.take(mid as int));
        assert(hb@ =~= sorted@.take(top_n as int).skip(mid as int));
        assert(lo@ =~= sorted@.skip(top_n as int));
        lemma_total_value_split(sorted@, top_n as int);
        lemma_total_value_split(sorted@.take(top_n as int), mid as int);
        assert(sorted@.take(top_n as int).take(mid as int) =~= ha@);
        lemma_sum_qty_split(sorted@, top_n as int);
        lemma_sum_qty_nonneg(sorted@.take(top_n as int));
        lemma_total_value_nonneg(ha@);
        lemma_total_value_nonneg(hb@);
        lemma_total_value_nonneg(lo@);
    }
    let p = build_leftover_prefix(&lo);
    let ghost flat = flat_values(lo@);
    proof {
        lemma_flat_len(lo@);
        lemma_flat_nonneg(lo@);
        lemma_flat_total(lo@);
        assert(p@[0] == sum_first(flat, 0));
        assert forall|x: int, y: int| 0 <= x <= y < p@.len() implies p@[x] <= p@[y] by {
            lemma_sum_first_monotone(flat, x, y);
        }
        assert(p@[p@.len() - 1] == total_value(lo@));
        assert(prefix_table_ok(p@, q));
    }
    let ca0 = enumerate_combos(&ha, q.max_value, q.max_items);
    let ghost cav0 = ca0@;
    let ca = sort_combos_asc(ca0);
    let cb = enumerate_combos(&hb, q.max_value, q.max_items);
    proof {
        assert forall|t: int|
            0 <= t < ca@.len() implies combo_ok(
                ha@, #[trigger] ca@[t], q.max_value as int, q.max_items as int) by {
            assert(ca@.contains(ca@[t]));
        }
        assert forall|t: int|
            0 <= t < ca@.len() implies 0 <= (#[trigger] ca@[t]).value <= q.max_value
                && ca@[t].count <= q.max_items by {
            assert(combo_ok(ha@, ca@[t], q.max_value as int, q.max_items as int));
            lemma_weighted_nonneg(ha@, ca@[t].counts@);
        }
        assert forall|t: int|
            0 <= t < cb@.len() implies 0 <= (#[trigger] cb@[t]).value <= q.max_value
                && cb@[t].count <= q.max_items by {
            assert(combo_ok(hb@, cb@[t], q.max_value as int, q.max_items as int));
            lemma_weighted_nonneg(hb@, cb@[t].counts@);
        }
        assert(combos_bounded(ca@, q));
        assert(combos_bounded(cb@, q));
    }
    proof {
        assert(top_n as int == top_len(orig.len() as int));
        assert forall|v: Seq<u8>|
            #[trigger] feasible(sorted@.take(mid as int), v, q.max_value as int, q.max_items as int)
                implies exists|t: int| 0 <= t < ca@.len() && (#[trigger] ca@[t]).counts@ == v by {
            assert(feasible(ha@, v, q.max_value as int, q.max_items as int));
            let t0 = choose|t0: int| 0 <= t0 < cav0.len() && (#[trigger] cav0[t0]).counts@ == v;
            assert(cav0.contains(cav0[t0]));
            assert(ca@.contains(cav0[t0]));
            let t = choose|t: int| 0 <= t < ca@.len() && ca@[t] == cav0[t0];
            assert((ca@[t]).counts@ == v);
        }
        assert(half_enumeration(sorted@.take(mid as int), ca@, q));
        assert(hb@ == sorted@.subrange(mid as int, top_n as int));
        assert(half_enumeration(sorted@.subrange(mid as int, top_n as int), cb@, q));
        assert forall|x: int| 0 <= x < p@.len() implies p@[x] == prefix_seq(lo@)[x] by {
            lemma_sum_first_monotone(flat, 0, x);
            lemma_sum_first_monotone(flat, x, flat.len() as int);
        }
        assert(p@ =~= prefix_seq(lo@));
        assert(prefix_seq(sorted@.skip(top_n as int)) == p@);
    }
    let best = combine(&ca, &cb, &p, q);
    let ghost bestg = best;
    match best {
        None => {
            let picks: Vec<Pick> = Vec::new();
            proof {
                assert(best_cand(ca@, cb@, p@, q) is None);
                assert(picks@ =~= Seq::<Pick>::empty());
                assert(selection_model(orig, q, sorted@, ca@, cb@, picks@));
            }
            picks
        },
        Some(b) => {
            let ghost a_combo = ca@[b.a_idx as int];
            let ghost b_combo = cb@[b.b_idx as int];
            let ghost av = a_combo.counts@;
            let ghost bv = b_combo.counts@;
            proof {
                assert(combo_ok(ha@, a_combo, q.max_value as int, q.max_items as int));
                assert(combo_ok(hb@, b_combo, q.max_value as int, q.max_items as int));
                lemma_eval_fields(a_combo, b_combo, p@, q);
                assert(b.k_used <= p@.len() - 1);
                assert(sum_qty(lo@) == p@.len() - 1);
            }
            let picks = assemble(&sorted, top_n, mid, &ca[b.a_idx].counts, &cb[b.b_idx].counts, b.k_used);
            proof {
                let k = b.k_used as int;
                let fl = fill_seq(lo@, k);
                let t = take_vec(sorted@, top_n as int, av, bv, k);
                lemma_fill_seq(lo@, k);
                lemma_fill_len(lo@, k);
                assert(t == av + bv + fl);
                assert(t.len() == sorted@.len());
                assert(picks@ == assemble_spec(sorted@, t));

                // the take vector's entries, piece by piece
                assert forall|x: int| 0 <= x < t.len() implies #[trigger] t[x] <= sorted@[x].qty by {
                    if x < mid as int {
                        assert(t[x] == av[x]);
                        assert(av[x] <= ha@[x].qty);
                    } else if x < top_n as int {
                        assert(t[x] == bv[x - mid]);
                        assert(bv[x - mid] <= hb@[x - mid].qty);
                    } else {
                        assert(t[x] == fl[x - top_n]);
                        assert(fl[x - top_n] <= lo@[x - top_n].qty);
                    }
                }

                // the selection's totals are the candidate's totals
                lemma_assemble_sums(sorted@, t);
                lemma_count_concat(av, bv);
                lemma_count_concat(av + bv, fl);
                assert((av + bv) + fl =~= av + bv + fl);
                lemma_weighted_concat(sorted@, av + bv, fl);
                lemma_weighted_concat(sorted@, av, bv);
                assert(sorted@.skip((av + bv).len() as int) =~= lo@);
                lemma_weighted_agree(sorted@, ha@, av);
                assert(weighted_sum(sorted@, av) == a_combo.value);
                lemma_weighted_agree(sorted@.skip(mid as int), hb@, bv);
                assert(weighted_sum(sorted@.skip(mid as int), bv) == b_combo.value);
                assert(weighted_sum(lo@, fl) == sum_first(flat, k));
                assert(p@[k] == sum_first(flat, k));
                assert(picks_value(picks@) == a_combo.value + b_combo.value + p@[k]);
                assert(picks_qty(picks@) == a_combo.count + b_combo.count + k);
                assert(q.min_value <= picks_value(picks@) <= q.max_value);
                assert(q.min_items <= picks_qty(picks@) <= q.max_items);

                // each entry comes from one owned item
                lemma_assemble_entries(sorted@, t);
                assert forall|x: int|
                    0 <= x < picks@.len() implies exists|i2: int|
                        0 <= i2 < orig.len() && orig[i2].item_id == (#[trigger] picks@[x]).item_id
                            && orig[i2].value == picks@[x].value && picks@[x].qty <= orig[i2].qty by {
                    let i2 = choose|i2: int|
                        0 <= i2 < t.len() && t[i2] > 0u8 && #[trigger] picks@[x] == (Pick {
                            item_id: sorted@[i2].item_id,
                            qty: t[i2],
                            value: sorted@[i2].value,
                        });
                    assert(sorted@.contains(sorted@[i2]));
                    let j2 = choose|j2: int| 0 <= j2 < orig.len() && orig[j2] == sorted@[i2];
                }

                // nothing fits in a zero count window
                if q.max_items == 0 {
                    assert(picks_qty(picks@) == 0);
                    lemma_picks_qty_pos(picks@);
                }

                // nothing fits above the whole inventory's value
                if total_value(orig) < q.min_value {
                    lemma_weighted_le_total(ha@, av);
                    lemma_weighted_le_total(hb@, bv);
                    lemma_sum_first_monotone(flat, k, flat.len() as int);
                    assert(p@[k] <= total_value(lo@));
                    assert(picks_value(picks@) <= total_value(sorted@));
                    assert(false);
                }

                // the returned selection is the model's winner
                law_best_minimal(ca@, cb@, p@, q);
                let c = abstract_best(bestg).unwrap();
                assert(best_cand(ca@, cb@, p@, q) == Some(c));
                assert(c.a_idx == b.a_idx as int && c.b_idx == b.b_idx as int);
                assert(c.val == b.val as int && c.cnt == b.cnt as int && c.k == k);
                assert(c.dist == dist_to(c.val, midpoint(q)));
                assert(picks@ == assemble_spec(
                    sorted@,
                    take_vec(sorted@, top_n as int, ca@[c.a_idx].counts@, cb@[c.b_idx].counts@, c.k),
                ));
                assert(picks_value(picks@) == c.val);
                assert(picks_qty(picks@) == c.cnt);
                assert(selection_model(orig, q, sorted@, ca@, cb@, picks@));
            }
            picks
        },
    }
}

} // verus!
