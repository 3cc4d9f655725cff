//! Materializing the winning selection: the take counts of the two chosen
//! half-combinations plus greedy filler over the leftover, emitted as the
//! strictly-positive (item, quantity) entries in item order.

use vstd::prelude::*;
use crate::inventory::{Item, sum_qty, unique_ids};
use crate::enumerate::{count_sum, weighted_sum};
use crate::prefix::{flat_values, sum_first, lemma_sum_first_left, lemma_sum_first_concat, lemma_sum_first_repeat, lemma_flat_len};

verus! {

/// One entry of the selection: an item, how many copies are taken, and the
/// value of one copy.
#[derive(Clone, Copy, PartialEq, Eq, Structural)]
pub struct Pick {
    pub item_id: i64,
    pub qty: u8,
    pub value: i64,
}

/// Greedy filler takes over the leftover: each item gives as many copies as
/// it can until `k` copies are reached.
pub open spec fn fill_seq(lo: Seq<Item>, k: int) -> Seq<u8>
    decreases lo.len(),
{
    if lo.len() == 0 {
        Seq::empty()
    } else {
        let t: int = if k <= 0 {
            0
        } else if lo[0].qty <= k {
            lo[0].qty as int
        } else {
            k
        };
        seq![t as u8] + fill_seq(lo.drop_first(), k - t)
    }
}

/// The positive entries of a take vector, in item order, with their items'
/// identifiers and values.
pub open spec fn assemble_spec(items: Seq<Item>, t: Seq<u8>) -> Seq<Pick>
    decreases t.len(),
{
    if t.len() == 0 {
        Seq::empty()
    } else {
        assemble_spec(items, t.drop_last()) + (if t.last() > 0u8 {
            seq![
                (Pick {
                    item_id: items[t.len() - 1].item_id,
                    qty: t.last(),
                    value: items[t.len() - 1].value,
                }),
            ]
        } else {
            Seq::empty()
        })
    }
}

/// Total copies of a selection.
pub open spec fn picks_qty(ps: Seq<Pick>) -> int
    decreases ps.len(),
{
    if ps.len() == 0 {
        0
    } else {
        picks_qty(ps.drop_last()) + ps.last().qty
    }
}

/// Total value of a selection.
pub open spec fn picks_value(ps: Seq<Pick>) -> int
    decreases ps.len(),
{
    if ps.len() == 0 {
        0
    } else {
        picks_value(ps.drop_last()) + ps.last().qty * ps.last().value
    }
}

/// A selection's totals are exactly its take vector's totals.
pub proof fn lemma_assemble_sums(items: Seq<Item>, t: Seq<u8>)
    requires
        t.len() <= items.len(),
    ensures
        picks_qty(assemble_spec(items, t)) == count_sum(t),
        picks_value(assemble_spec(items, t)) == weighted_sum(items, t),
    decreases t.len(),
{
    if t.len() > 0 {
        lemma_assemble_sums(items, t.drop_last());
        let ps = assemble_spec(items, t);
        let prev = assemble_spec(items, t.drop_last());
        if t.last() > 0u8 {
            assert(ps.drop_last() =~= prev);
        } else {
            assert(ps =~= prev);
            assert(t.last() * items[t.len() - 1].value == 0) by (nonlinear_arith)
                requires t.last() == 0u8;
        }
    }
}

/// Every entry of a selection comes from one positive take, and identifiers
/// stay unique when the items' are.
#[verifier::rlimit(100)]
pub proof fn lemma_assemble_entries(items: Seq<Item>, t: Seq<u8>)
    requires
        t.len() <= items.len(),
    ensures
        forall|n: int|
            0 <= n < assemble_spec(items, t).len()
                ==> exists|i: int|
                    0 <= i < t.len() && t[i] > 0u8 && #[trigger] assemble_spec(items, t)[n] == (Pick {
                        item_id: items[i].item_id,
                        qty: t[i],
                        value: items[i].value,
                    }),
        forall|i: int|
            0 <= i < t.len() && t[i] > 0u8
                ==> exists|n: int|
                    0 <= n < assemble_spec(items, t).len() && #[trigger] assemble_spec(items, t)[n]
                        == (Pick { item_id: items[i].item_id, qty: t[i], value: items[i].value }),
        unique_ids(items) ==> forall|n1: int, n2: int|
            0 <= n1 < n2 < assemble_spec(items, t).len()
                ==> assemble_spec(items, t)[n1].item_id != assemble_spec(items, t)[n2].item_id,
    decreases t.len(),
{
    if t.len() > 0 {
        lemma_assemble_entries(items, t.drop_last());
        let ps = assemble_spec(items, t);
        let prev = assemble_spec(items, t.drop_last());
        assert forall|n: int|
            0 <= n < ps.len() implies exists|i: int|
                0 <= i < t.len() && t[i] > 0u8 && #[trigger] ps[n] == (Pick {
                    item_id: items[i].item_id,
                    qty: t[i],
                    value: items[i].value,
                }) by {
            if n < prev.len() {
                assert(ps[n] == prev[n]);
                let i = choose|i: int|
                    0 <= i < t.drop_last().len() && t.drop_last()[i] > 0u8
                        && #[trigger] prev[n] == (Pick {
                        item_id: items[i].item_id,
                        qty: t.drop_last()[i],
                        value: items[i].value,
                    });
                assert(t[i] == t.drop_last()[i]);
            } else {
                assert(t.last() > 0u8);
                let i = t.len() - 1;
                assert(ps[n] == (Pick { item_id: items[i].item_id, qty: t[i], value: items[i].value }));
            }
        }
        assert forall|i: int|
            0 <= i < t.len() && t[i] > 0u8 implies exists|n: int|
                0 <= n < ps.len() && #[trigger] ps[n]
                    == (Pick { item_id: items[i].item_id, qty: t[i], value: items[i].value }) by {
            if i < t.len() - 1 {
                assert(t.drop_last()[i] == t[i]);
                let n = choose|n: int|
                    0 <= n < prev.len() && #[trigger] prev[n] == (Pick {
                        item_id: items[i].item_id,
                        qty: t.drop_last()[i],
                        value: items[i].value,
                    });
                assert(ps[n] == prev[n]);
            } else {
                assert(ps[ps.len() - 1] == (Pick {
                    item_id: items[i].item_id,
                    qty: t[i],
                    value: items[i].value,
                }));
            }
        }
        if unique_ids(items) {
            assert forall|n1: int, n2: int|
                0 <= n1 < n2 < ps.len() implies ps[n1].item_id != ps[n2].item_id by {
                if n2 < prev.len() {
                    assert(ps[n1] == prev[n1] && ps[n2] == prev[n2]);
                } else {
                    assert(t.last() > 0u8);
                    assert(ps[n1] == prev[n1]);
                    let i = choose|i: int|
                        0 <= i < t.drop_last().len() && t.drop_last()[i] > 0u8
                            && #[trigger] prev[n1] == (Pick {
                            item_id: items[i].item_id,
                            qty: t.drop_last()[i],
                            value: items[i].value,
                        });
                    assert(items[i].item_id != items[t.len() - 1].item_id);
                }
            }
        }
    }
}

pub proof fn lemma_fill_len(lo: Seq<Item>, k: int)
    ensures
        fill_seq(lo, k).len() == lo.len(),
    decreases lo.len(),
{
    if lo.len() > 0 {
        let t: int = if k <= 0 { 0 } else if lo[0].qty <= k { lo[0].qty as int } else { k };
        lemma_fill_len(lo.drop_first(), k - t);
    }
}

/// Prepending one item to `sum_qty`.
proof fn lemma_sum_qty_cons(lo: Seq<Item>)
    requires
        lo.len() > 0,
    ensures
        sum_qty(lo) == lo[0].qty + sum_qty(lo.drop_first()),
    decreases lo.len(),
{
    if lo.len() > 1 {
        lemma_sum_qty_cons(lo.drop_last());
        assert(lo.drop_last()[0] == lo[0]);
        assert(lo.drop_last().drop_first() =~= lo.drop_first().drop_last());
        assert(lo.drop_first().last() == lo.last());
        assert(sum_qty(lo) == sum_qty(lo.drop_last()) + lo.last().qty);
        assert(sum_qty(lo.drop_first())
            == sum_qty(lo.drop_first().drop_last()) + lo.drop_first().last().qty);
    } else {
        assert(lo.drop_first() =~= Seq::<Item>::empty());
        assert(sum_qty(lo) == sum_qty(lo.drop_last()) + lo.last().qty);
        assert(lo.drop_last() =~= Seq::<Item>::empty());
    }
}

/// Prepending one take to `count_sum`.
proof fn lemma_count_cons(v: Seq<u8>)
    requires
        v.len() > 0,
    ensures
        count_sum(v) == v[0] + count_sum(v.drop_first()),
    decreases v.len(),
{
    if v.len() > 1 {
        lemma_count_cons(v.drop_last());
        assert(v.drop_last()[0] == v[0]);
        assert(v.drop_last().drop_first() =~= v.drop_first().drop_last());
        assert(v.drop_first().last() == v.last());
        assert(count_sum(v) == count_sum(v.drop_last()) + v.last());
        assert(count_sum(v.drop_first())
            == count_sum(v.drop_first().drop_last()) + v.drop_first().last());
    } else {
        assert(v.drop_first() =~= Seq::<u8>::empty());
        assert(count_sum(v) == count_sum(v.drop_last()) + v.last());
        assert(v.drop_last() =~= Seq::<u8>::empty());
    }
}

/// Prepending one take to `weighted_sum`.
proof fn lemma_weighted_cons(h: Seq<Item>, v: Seq<u8>)
    requires
        0 < v.len() <= h.len(),
    ensures
        weighted_sum(h, v) == v[0] * h[0].value + weighted_sum(h.drop_first(), v.drop_first()),
    decreases v.len(),
{
    if v.len() > 1 {
        lemma_weighted_cons(h, v.drop_last());
        assert(v.drop_last()[0] == v[0]);
        assert(v.drop_last().drop_first() =~= v.drop_first().drop_last());
        assert(v.drop_first().last() == v.last());
        assert(h.drop_first()[v.drop_first().len() - 1] == h[v.len() - 1]);
        assert(weighted_sum(h, v) == weighted_sum(h, v.drop_last()) + v.last() * h[v.len() - 1].value);
        assert(weighted_sum(h.drop_first(), v.drop_first())
            == weighted_sum(h.drop_first(), v.drop_first().drop_last())
                + v.drop_first().last() * h.drop_first()[v.drop_first().len() - 1].value);
    } else {
        assert(v.drop_first() =~= Seq::<u8>::empty());
        assert(weighted_sum(h, v) == weighted_sum(h, v.drop_last()) + v.last() * h[0].value);
        assert(v.drop_last() =~= Seq::<u8>::empty());
    }
}

/// The flattening seen from the front: the first item's copies, then the
/// rest.
proof fn lemma_flat_cons(lo: Seq<Item>)
    requires
        lo.len() > 0,
    ensures
        flat_values(lo) =~= Seq::new(lo[0].qty as nat, |x: int| lo[0].value)
            + flat_values(lo.drop_first()),
    decreases lo.len(),
{
    if lo.len() > 1 {
        lemma_flat_cons(lo.drop_last());
        assert(lo.drop_last().drop_first() =~= lo.drop_first().drop_last());
        assert(lo.drop_first().last() == lo.last());
        assert(lo.drop_last()[0] == lo[0]);
        assert(flat_values(lo.drop_first())
            =~= flat_values(lo.drop_first().drop_last())
                + Seq::new(lo.drop_first().last().qty as nat, |x: int| lo.drop_first().last().value));
    } else {
        assert(lo.drop_first() =~= Seq::<Item>::empty());
        assert(lo.drop_last() =~= Seq::<Item>::empty());
    }
}

/// Greedy filler over a leftover with at least `k` copies takes exactly `k`
/// copies, within each item's quantity, and is worth exactly the sum of the
/// first `k` flattened copy values.
pub proof fn lemma_fill_seq(lo: Seq<Item>, k: int)
    requires
        0 <= k <= sum_qty(lo),
    ensures
        fill_seq(lo, k).len() == lo.len(),
        forall|i: int| 0 <= i < lo.len() ==> #[trigger] fill_seq(lo, k)[i] <= lo[i].qty,
        count_sum(fill_seq(lo, k)) == k,
        weighted_sum(lo, fill_seq(lo, k)) == sum_first(flat_values(lo), k),
    decreases lo.len(),
{
    lemma_fill_len(lo, k);
    if lo.len() == 0 {
    } else {
        let t: int = if k <= 0 { 0 } else if lo[0].qty <= k { lo[0].qty as int } else { k };
        let rest = fill_seq(lo.drop_first(), k - t);
        let f = fill_seq(lo, k);
        lemma_sum_qty_cons(lo);
        crate::prefix::lemma_sum_qty_nonneg(lo.drop_first());
        lemma_fill_seq(lo.drop_first(), k - t);
        assert(f == seq![t as u8] + rest);
        assert(f[0] == t as u8);
        assert forall|i: int| 0 <= i < lo.len() implies #[trigger] f[i] <= lo[i].qty by {
            if i > 0 {
                assert(f[i] == rest[i - 1]);
                assert(lo.drop_first()[i - 1] == lo[i]);
            }
        }
        lemma_count_cons(f);
        assert(f.drop_first() =~= rest);
        lemma_weighted_cons(lo, f);
        let rep = Seq::new(lo[0].qty as nat, |x: int| lo[0].value);
        lemma_flat_cons(lo);
        lemma_flat_len(lo.drop_first());
        assert(flat_values(lo) == rep + flat_values(lo.drop_first()));
        lemma_sum_first_repeat(rep, lo[0].value, t);
        if k - t == 0 {
            assert(t <= rep.len());
            lemma_sum_first_left(rep, flat_values(lo.drop_first()), t);
            assert(sum_first(flat_values(lo), k) == t * lo[0].value);
        } else {
            assert(t == lo[0].qty as int);
            lemma_sum_first_concat(rep, flat_values(lo.drop_first()), k - t);
            assert(sum_first(flat_values(lo), k)
                == t * lo[0].value + sum_first(flat_values(lo.drop_first()), k - t));
        }
    }
}

/// Concatenated take vectors: total copies add up.
pub proof fn lemma_count_concat(v1: Seq<u8>, v2: Seq<u8>)
    ensures
        count_sum(v1 + v2) == count_sum(v1) + count_sum(v2),
    decreases v2.len(),
{
    if v2.len() == 0 {
        assert(v1 + v2 =~= v1);
    } else {
        lemma_count_concat(v1, v2.drop_last());
        assert((v1 + v2).drop_last() =~= v1 + v2.drop_last());
        assert((v1 + v2).last() == v2.last());
        assert(count_sum(v1 + v2) == count_sum((v1 + v2).drop_last()) + (v1 + v2).last());
    }
}

/// Concatenated take vectors: total value splits at the seam, the right part
/// weighed over the items past it.
pub proof fn lemma_weighted_concat(h: Seq<Item>, v1: Seq<u8>, v2: Seq<u8>)
    requires
        v1.len() + v2.len() <= h.len(),
    ensures
        weighted_sum(h, v1 + v2)
            == weighted_sum(h, v1) + weighted_sum(h.skip(v1.len() as int), v2),
    decreases v2.len(),
{
    if v2.len() == 0 {
        assert(v1 + v2 =~= v1);
    } else {
        lemma_weighted_concat(h, v1, v2.drop_last());
        assert((v1 + v2).drop_last() =~= v1 + v2.drop_last());
        assert((v1 + v2).last() == v2.last());
        assert(h[(v1 + v2).len() - 1] == h.skip(v1.len() as int)[v2.len() - 1]);
        assert(weighted_sum(h, v1 + v2)
            == weighted_sum(h, (v1 + v2).drop_last())
                + (v1 + v2).last() * h[(v1 + v2).len() - 1].value);
        assert(weighted_sum(h.skip(v1.len() as int), v2)
            == weighted_sum(h.skip(v1.len() as int), v2.drop_last())
                + v2.last() * h.skip(v1.len() as int)[v2.len() - 1].value);
    }
}

/// A selection of strictly-positive entries holds at least one copy per
/// entry.
pub proof fn lemma_picks_qty_pos(ps: Seq<Pick>)
    requires
        forall|n: int| 0 <= n < ps.len() ==> (#[trigger] ps[n]).qty > 0,
    ensures
        picks_qty(ps) >= ps.len(),
    decreases ps.len(),
{
    if ps.len() > 0 {
        lemma_picks_qty_pos(ps.drop_last());
    }
}

/// The whole take vector: both halves' take counts, then the greedy filler
/// over the leftover.
pub open spec fn take_vec(items: Seq<Item>, top_n: int, av: Seq<u8>, bv: Seq<u8>, k: int) -> Seq<u8> {
    av + bv + fill_seq(items.skip(top_n), k)
}

/// Builds the selection: each top item's take from its half's counts, then
/// greedy filler copies from the leftover, positive entries only, in item
/// order.
pub fn assemble(
    items: &Vec<Item>,
    top_n: usize,
    mid: usize,
    a_counts: &Vec<u8>,
    b_counts: &Vec<u8>,
    k_used: usize,
) -> (picks: Vec<Pick>)
    requires
        mid <= top_n <= items@.len(),
        a_counts@.len() == mid,
        b_counts@.len() == top_n - mid,
        0 <= k_used <= sum_qty(items@.skip(top_n as int)),
    ensures
        picks@ == assemble_spec(
            items@,
            take_vec(items@, top_n as int, a_counts@, b_counts@, k_used as int),
        ),
{
    let ghost t = take_vec(items@, top_n as int, a_counts@, b_counts@, k_used as int);
    proof {
        lemma_fill_len(items@.skip(top_n as int), k_used as int);
        assert(t.len() == items@.len());
    }
    let mut picks: Vec<Pick> = Vec::new();
    let mut i: usize = 0;
    while i < mid
        invariant
            mid <= top_n <= items@.len(),
            a_counts@.len() == mid,
            b_counts@.len() == top_n - mid,
            0 <= i <= mid,
            t == take_vec(items@, top_n as int, a_counts@, b_counts@, k_used as int),
            t.len() == items@.len(),
            forall|n: int| 0 <= n < mid ==> t[n] == a_counts@[n],
            picks@ == assemble_spec(items@, t.take(i as int)),
        decreases mid - i,
    {
        proof {
            assert(t.take(i + 1).drop_last() =~= t.take(i as int));
            assert(t.take(i + 1).last() == t[i as int]);
        }
        let c = a_counts[i];
        if c > 0 {
            picks.push(Pick { item_id: items[i].item_id, qty: c, value: items[i].value });
            proof {
                assert(picks@ =~= assemble_spec(items@, t.take(i + 1)));
            }
        } else {
            proof {
                assert(picks@ =~= assemble_spec(items@, t.take(i + 1)));
            }
        }
        i += 1;
    }
    while i < top_n
        invariant
            mid <= top_n <= items@.len(),
            a_counts@.len() == mid,
            b_counts@.len() == top_n - mid,
            mid <= i <= top_n,
            t == take_vec(items@, top_n as int, a_counts@, b_counts@, k_used as int),
            t.len() == items@.len(),
            forall|n: int| mid <= n < top_n ==> t[n] == b_counts@[n - mid],
            picks@ == assemble_spec(items@, t.take(i as int)),
        decreases top_n - i,
    {
        proof {
            assert(t.take(i + 1).drop_last() =~= t.take(i as int));
            assert(t.take(i + 1).last() == t[i as int]);
        }
        let c = b_counts[i - mid];
        if c > 0 {
            picks.push(Pick { item_id: items[i].item_id, qty: c, value: items[i].value });
            proof {
                assert(picks@ =~= assemble_spec(items@, t.take(i + 1)));
            }
        } else {
            proof {
                assert(picks@ =~= assemble_spec(items@, t.take(i + 1)));
            }
        }
        i += 1;
    }
    let mut remaining: usize = k_used;
    proof {
        assert(items@.skip(top_n as int).skip(i - top_n) =~= items@.skip(i as int));
    }
    while i < items.len()
        invariant
            mid <= top_n <= items@.len(),
            top_n <= i <= items@.len(),
            t == take_vec(items@, top_n as int, a_counts@, b_counts@, k_used as int),
            t.len() == items@.len(),
            forall|n: int|
                top_n <= n < items@.len()
                    ==> t[n] == fill_seq(items@.skip(top_n as int), k_used as int)[n - top_n],
            fill_seq(items@.skip(top_n as int), k_used as int).len() == items@.len() - top_n,
            fill_seq(items@.skip(top_n as int), k_used as int).skip(i - top_n)
                == fill_seq(items@.skip(i as int), remaining as int),
            0 <= remaining <= sum_qty(items@.skip(i as int)),
            picks@ == assemble_spec(items@, t.take(i as int)),
        decreases items@.len() - i,
    {
        let ghost lo = items@.skip(i as int);
        proof {
            assert(lo.len() > 0);
            assert(lo[0] == items@[i as int]);
            lemma_sum_qty_cons(lo);
            crate::prefix::lemma_sum_qty_nonneg(lo.drop_first());
            assert(t.take(i + 1).drop_last() =~= t.take(i as int));
            assert(t.take(i + 1).last() == t[i as int]);
            assert(fill_seq(items@.skip(top_n as int), k_used as int).skip(i - top_n)[0]
                == t[i as int]);
            assert(fill_seq(lo, remaining as int)[0] == t[i as int]);
        }
        let item = items[i];
        let c: u8 = if item.qty as usize <= remaining {
            item.qty
        } else {
            remaining as u8
        };
        proof {
            assert(t[i as int] == c);
            assert(lo.drop_first() =~= items@.skip(i + 1));
            assert(fill_seq(items@.skip(top_n as int), k_used as int).skip(i + 1 - top_n)
                =~= fill_seq(lo, remaining as int).drop_first());
        }
        if c > 0 {
            picks.push(Pick { item_id: item.item_id, qty: c, value: item.value });
            proof {
                assert(picks@ =~= assemble_spec(items@, t.take(i + 1)));
            }
        } else {
            proof {
                assert(picks@ =~= assemble_spec(items@, t.take(i + 1)));
            }
        }
        remaining = remaining - c as usize;
        i += 1;
    }
    proof {
        assert(t.take(items@.len() as int) =~= t);
    }
    picks
}

} // verus!
