//! Joining the two half-enumerations: for every pair of half-combinations the
//! model admits, score its total by distance to the value-window midpoint,
//! lifting under-minimum pairs with leftover filler, and keep the first
//! strictly-best candidate in scan order.

use vstd::prelude::*;
use crate::inventory::{Query, query_ok};
use crate::enumerate::Combo;

verus! {

/// The midpoint of the value window: the target every candidate is scored
/// against.
pub open spec fn midpoint(q: Query) -> int {
    (q.min_value + q.max_value) / 2
}

/// Distance of a total from the midpoint.
pub open spec fn dist_to(val: int, mid: int) -> int {
    if val >= mid {
        val - mid
    } else {
        mid - val
    }
}

/// A copy-value sequence ordered lowest first.
pub open spec fn vals_sorted_asc(s: Seq<i64>) -> bool {
    forall|i: int, j: int| 0 <= i <= j < s.len() ==> s[i] <= s[j]
}

/// First index of `s` whose entry is at least `x`.
pub open spec fn lb(s: Seq<i64>, x: int) -> int
    decreases s.len(),
{
    if s.len() == 0 {
        0
    } else if s[0] >= x {
        0
    } else {
        1 + lb(s.drop_first(), x)
    }
}

pub proof fn lemma_lb_props(s: Seq<i64>, x: int)
    ensures
        0 <= lb(s, x) <= s.len(),
        forall|t: int| 0 <= t < lb(s, x) ==> s[t] < x,
        lb(s, x) < s.len() ==> s[lb(s, x)] >= x,
    decreases s.len(),
{
    if s.len() > 0 && s[0] < x {
        lemma_lb_props(s.drop_first(), x);
        assert forall|t: int| 0 <= t < lb(s, x) implies s[t] < x by {
            if t > 0 {
                assert(s.drop_first()[t - 1] == s[t]);
            }
        }
        if lb(s, x) < s.len() {
            assert(s.drop_first()[lb(s, x) - 1] == s[lb(s, x)]);
        }
    }
}

/// `lb` is the unique index below which all entries are short of `x` and at
/// which, if in range, the entry reaches `x`.
pub proof fn lemma_lb_unique(s: Seq<i64>, x: int, r: int)
    requires
        0 <= r <= s.len(),
        forall|t: int| 0 <= t < r ==> s[t] < x,
        r < s.len() ==> s[r] >= x,
    ensures
        r == lb(s, x),
{
    lemma_lb_props(s, x);
    if r < lb(s, x) {
        assert(s[r] < x);
        assert(false);
    }
    if r > lb(s, x) {
        assert(s[lb(s, x)] >= x);
        assert(false);
    }
}

/// Binary search for the first entry of a non-decreasing table that reaches
/// `x`.
pub fn lower_bound(p: &Vec<i64>, x: i64) -> (r: usize)
    requires
        vals_sorted_asc(p@),
    ensures
        r as int == lb(p@, x as int),
{
    let mut lo: usize = 0;
    let mut hi: usize = p.len();
    while lo < hi
        invariant
            0 <= lo <= hi <= p@.len(),
            vals_sorted_asc(p@),
            forall|t: int| 0 <= t < lo ==> p@[t] < x,
            forall|t: int| hi <= t < p@.len() ==> p@[t] >= x,
        decreases hi - lo,
    {
        let mid = lo + (hi - lo) / 2;
        if p[mid] < x {
            lo = mid + 1;
        } else {
            hi = mid;
        }
    }
    proof {
        lemma_lb_unique(p@, x as int, lo as int);
    }
    lo
}

/// One candidate the model admits: its score, totals, filler copies, and the
/// indexes of the half-combinations it joins.
pub ghost struct Cand {
    pub dist: int,
    pub val: int,
    pub cnt: int,
    pub k: int,
    pub a_idx: int,
    pub b_idx: int,
}

/// Evaluation of one pair `(a, b)` of half-combinations against the windows:
/// `None` if the model rejects the pair, otherwise the admitted total value,
/// total copy count, and filler copies used.
pub open spec fn eval(a: Combo, b: Combo, p: Seq<i64>, q: Query) -> Option<(int, int, int)> {
    let av = a.value as int;
    let bv = b.value as int;
    let minv = q.min_value as int;
    let maxv = q.max_value as int;
    let mini = q.min_items as int;
    let maxi = q.max_items as int;
    let m = p.len() - 1;
    let val0 = av + bv;
    let cnt0 = a.count + b.count;
    if av < minv - bv {
        None
    } else if av > maxv - bv {
        None
    } else if cnt0 > maxi {
        None
    } else if val0 < minv || cnt0 < mini {
        let need_val = if minv - val0 > 0 { minv - val0 } else { 0 };
        let need_cnt = if mini - cnt0 > 0 { mini - cnt0 } else { 0 };
        let k_val = lb(p, need_val);
        let k = if need_cnt > k_val { need_cnt } else { k_val };
        if k == 0 || cnt0 + k > maxi || k > m {
            None
        } else {
            let val1 = val0 + p[k];
            let cnt1 = cnt0 + k;
            if val1 > maxv {
                None
            } else if val1 >= minv && cnt1 >= mini {
                Some((val1, cnt1, k))
            } else {
                None
            }
        }
    } else {
        Some((val0, cnt0, 0))
    }
}

/// The candidate the pair `(i, j)` contributes, scored against the midpoint.
pub open spec fn cand_of(ca: Seq<Combo>, cb: Seq<Combo>, p: Seq<i64>, q: Query, i: int, j: int) -> Option<Cand> {
    match eval(ca[i], cb[j], p, q) {
        Some(t) => Some(
            Cand { dist: dist_to(t.0, midpoint(q)), val: t.0, cnt: t.1, k: t.2, a_idx: i, b_idx: j },
        ),
        None => None,
    }
}

/// Strict improvement: a new candidate replaces the incumbent only when its
/// distance is strictly lower.
pub open spec fn step(acc: Option<Cand>, c: Option<Cand>) -> Option<Cand> {
    match c {
        None => acc,
        Some(cc) => match acc {
            None => Some(cc),
            Some(aa) => if cc.dist < aa.dist {
                Some(cc)
            } else {
                Some(aa)
            },
        },
    }
}

/// Folding one row: candidates of `b_j` joined with `a_i, a_(i+1), ...` in
/// order.
pub open spec fn scan_row(ca: Seq<Combo>, cb: Seq<Combo>, p: Seq<i64>, q: Query, j: int, i: int, acc: Option<Cand>) -> Option<Cand>
    decreases ca.len() - i,
{
    if 0 <= i < ca.len() {
        scan_row(ca, cb, p, q, j, i + 1, step(acc, cand_of(ca, cb, p, q, i, j)))
    } else {
        acc
    }
}

/// Folding all rows from `j` on, each row scanned in order.
pub open spec fn scan_all(ca: Seq<Combo>, cb: Seq<Combo>, p: Seq<i64>, q: Query, j: int, acc: Option<Cand>) -> Option<Cand>
    decreases cb.len() - j,
{
    if 0 <= j < cb.len() {
        scan_all(ca, cb, p, q, j + 1, scan_row(ca, cb, p, q, j, 0, acc))
    } else {
        acc
    }
}

/// The combiner's abstract result: the first strictly-best candidate over
/// every pair, rows in `cb` order, columns in `ca` order.
pub open spec fn best_cand(ca: Seq<Combo>, cb: Seq<Combo>, p: Seq<i64>, q: Query) -> Option<Cand> {
    scan_all(ca, cb, p, q, 0, None)
}

pub proof fn lemma_scan_row_props(ca: Seq<Combo>, cb: Seq<Combo>, p: Seq<i64>, q: Query, j: int, i: int, acc: Option<Cand>)
    requires
        0 <= i <= ca.len(),
        0 <= j < cb.len(),
    ensures
        ({
            let r = scan_row(ca, cb, p, q, j, i, acc);
            &&& (acc is Some ==> r is Some && r.unwrap().dist <= acc.unwrap().dist)
            &&& (r == acc || (r is Some && exists|t: int|
                i <= t < ca.len() && #[trigger] cand_of(ca, cb, p, q, t, j) == r))
            &&& (forall|t: int|
                i <= t < ca.len() && #[trigger] cand_of(ca, cb, p, q, t, j) is Some
                    ==> r is Some && r.unwrap().dist <= cand_of(ca, cb, p, q, t, j).unwrap().dist)
        }),
    decreases ca.len() - i,
{
    if i < ca.len() {
        let c = cand_of(ca, cb, p, q, i, j);
        let acc2 = step(acc, c);
        lemma_scan_row_props(ca, cb, p, q, j, i + 1, acc2);
        let r = scan_row(ca, cb, p, q, j, i, acc);
        assert(r == scan_row(ca, cb, p, q, j, i + 1, acc2));
        if r == acc2 && acc2 != acc {
            assert(c is Some);
            if acc is Some && acc.unwrap().dist <= c.unwrap().dist {
                assert(acc2 == acc);
            } else {
                assert(acc2 == c);
                assert(cand_of(ca, cb, p, q, i, j) == r);
            }
        }
    }
}

pub proof fn lemma_scan_all_props(ca: Seq<Combo>, cb: Seq<Combo>, p: Seq<i64>, q: Query, j: int, acc: Option<Cand>)
    requires
        0 <= j <= cb.len(),
    ensures
        ({
            let r = scan_all(ca, cb, p, q, j, acc);
            &&& (acc is Some ==> r is Some && r.unwrap().dist <= acc.unwrap().dist)
            &&& (r == acc || (r is Some && exists|t: int, u: int|
                j <= t < cb.len() && 0 <= u < ca.len()
                    && #[trigger] cand_of(ca, cb, p, q, u, t) == r))
            &&& (forall|t: int, u: int|
                j <= t < cb.len() && 0 <= u < ca.len()
                    && #[trigger] cand_of(ca, cb, p, q, u, t) is Some
                    ==> r is Some && r.unwrap().dist <= cand_of(ca, cb, p, q, u, t).unwrap().dist)
        }),
    decreases cb.len() - j,
{
    if j < cb.len() {
        let acc2 = scan_row(ca, cb, p, q, j, 0, acc);
        lemma_scan_row_props(ca, cb, p, q, j, 0, acc);
        lemma_scan_all_props(ca, cb, p, q, j + 1, acc2);
        let r = scan_all(ca, cb, p, q, j, acc);
        assert(r == scan_all(ca, cb, p, q, j + 1, acc2));
    }
}

/// Law of optimality: among every pair of half-combinations the model
/// admits, the combiner's result scores at least as close to the midpoint as
/// any of them, and the result itself is one of the admitted candidates.
pub proof fn law_best_minimal(ca: Seq<Combo>, cb: Seq<Combo>, p: Seq<i64>, q: Query)
    ensures
        forall|i: int, j: int|
            0 <= i < ca.len() && 0 <= j < cb.len() && #[trigger] eval(ca[i], cb[j], p, q) is Some
                ==> best_cand(ca, cb, p, q) is Some
                    && best_cand(ca, cb, p, q).unwrap().dist
                        <= dist_to(eval(ca[i], cb[j], p, q).unwrap().0, midpoint(q)),
        best_cand(ca, cb, p, q) is Some ==> exists|i: int, j: int|
            0 <= i < ca.len() && 0 <= j < cb.len()
                && #[trigger] cand_of(ca, cb, p, q, i, j) == best_cand(ca, cb, p, q),
        best_cand(ca, cb, p, q) is None ==> forall|i: int, j: int|
            0 <= i < ca.len() && 0 <= j < cb.len() ==> #[trigger] eval(ca[i], cb[j], p, q) is None,
{
    lemma_scan_all_props(ca, cb, p, q, 0, None);
    let r = best_cand(ca, cb, p, q);
    assert forall|i: int, j: int|
        0 <= i < ca.len() && 0 <= j < cb.len() && #[trigger] eval(ca[i], cb[j], p, q) is Some
            implies r is Some
                && r.unwrap().dist <= dist_to(eval(ca[i], cb[j], p, q).unwrap().0, midpoint(q)) by {
        assert(cand_of(ca, cb, p, q, i, j) is Some);
        assert(cand_of(ca, cb, p, q, i, j).unwrap().dist
            == dist_to(eval(ca[i], cb[j], p, q).unwrap().0, midpoint(q)));
    }
    if r is None {
        assert forall|i: int, j: int|
            0 <= i < ca.len() && 0 <= j < cb.len() implies #[trigger] eval(ca[i], cb[j], p, q) is None by {
            if eval(ca[i], cb[j], p, q) is Some {
                assert(cand_of(ca, cb, p, q, i, j) is Some);
            }
        }
    }
}

/// Law of the pinned count window: when the count window is a single point,
/// every candidate the model admits takes exactly that many copies.
pub proof fn law_exact_count(a: Combo, b: Combo, p: Seq<i64>, q: Query)
    requires
        q.min_items == q.max_items,
        eval(a, b, p, q) is Some,
    ensures
        eval(a, b, p, q).unwrap().1 == q.min_items,
{
}

/// What the model guarantees of every candidate it admits: totals inside
/// both windows, filler within the table, and totals that are exactly the
/// halves' plus the filler's.
pub proof fn lemma_eval_fields(a: Combo, b: Combo, p: Seq<i64>, q: Query)
    requires
        eval(a, b, p, q) is Some,
        p.len() >= 1,
        p[0] == 0,
    ensures
        q.min_value <= eval(a, b, p, q).unwrap().0 <= q.max_value,
        q.min_items <= eval(a, b, p, q).unwrap().1 <= q.max_items,
        0 <= eval(a, b, p, q).unwrap().2 <= p.len() - 1,
        eval(a, b, p, q).unwrap().0
            == a.value + b.value + p[eval(a, b, p, q).unwrap().2],
        eval(a, b, p, q).unwrap().1 == a.count + b.count + eval(a, b, p, q).unwrap().2,
{
}

/// Law of the empty selection: when it is admissible and the midpoint is
/// zero, it competes and wins — the best distance is zero, at total value
/// zero.
pub proof fn law_empty_selection_wins(ca: Seq<Combo>, cb: Seq<Combo>, p: Seq<i64>, q: Query, i: int, j: int)
    requires
        0 <= i < ca.len(),
        0 <= j < cb.len(),
        ca[i].value == 0,
        ca[i].count == 0,
        cb[j].value == 0,
        cb[j].count == 0,
        query_ok(q),
        q.min_value == 0,
        q.min_items == 0,
        midpoint(q) == 0,
    ensures
        best_cand(ca, cb, p, q) is Some,
        best_cand(ca, cb, p, q).unwrap().dist == 0,
        best_cand(ca, cb, p, q).unwrap().val == 0,
{
    assert(eval(ca[i], cb[j], p, q) == Some((0int, 0int, 0int)));
    law_best_minimal(ca, cb, p, q);
    let r = best_cand(ca, cb, p, q);
    assert(r is Some && r.unwrap().dist <= 0);
    let (wi, wj) = choose|wi: int, wj: int|
        0 <= wi < ca.len() && 0 <= wj < cb.len() && #[trigger] cand_of(ca, cb, p, q, wi, wj) == r;
    assert(r.unwrap().dist == dist_to(r.unwrap().val, midpoint(q)));
}

/// What the combiner returns when it finds a winner.
pub struct Best {
    pub dist: i64,
    pub val: i64,
    pub cnt: u8,
    pub k_used: usize,
    pub a_idx: usize,
    pub b_idx: usize,
}

/// The abstract candidate an exec result stands for.
pub open spec fn abstract_best(r: Option<Best>) -> Option<Cand> {
    match r {
        None => None,
        Some(b) => Some(
            Cand {
                dist: b.dist as int,
                val: b.val as int,
                cnt: b.cnt as int,
                k: b.k_used as int,
                a_idx: b.a_idx as int,
                b_idx: b.b_idx as int,
            },
        ),
    }
}

/// Every combination's totals stay within the query windows.
pub open spec fn combos_bounded(cs: Seq<Combo>, q: Query) -> bool {
    forall|t: int|
        0 <= t < cs.len()
            ==> 0 <= (#[trigger] cs[t]).value <= q.max_value && cs[t].count <= q.max_items
}

/// The facts the combiner needs of the leftover-prefix table.
pub open spec fn prefix_table_ok(p: Seq<i64>, q: Query) -> bool {
    &&& p.len() >= 1
    &&& p[0] == 0
    &&& vals_sorted_asc(p)
    &&& q.max_value + p[p.len() - 1] <= i64::MAX
}

/// One exec candidate.
struct CandE {
    dist: i64,
    val: i64,
    cnt: u8,
    k: usize,
}

/// Evaluates one pair exactly as the model does.
fn eval_pair(a: &Combo, b: &Combo, p: &Vec<i64>, q: Query, mid: i64) -> (r: Option<CandE>)
    requires
        0 <= a.value <= q.max_value,
        a.count <= q.max_items,
        0 <= b.value <= q.max_value,
        b.count <= q.max_items,
        query_ok(q),
        prefix_table_ok(p@, q),
        mid as int == midpoint(q),
    ensures
        match r {
            None => eval(*a, *b, p@, q) is None,
            Some(c) => {
                &&& eval(*a, *b, p@, q) == Some((c.val as int, c.cnt as int, c.k as int))
                &&& c.dist as int == dist_to(c.val as int, midpoint(q))
                &&& 0 <= c.val <= q.max_value
                &&& c.cnt <= q.max_items
            },
        },
{
    proof {
        assert(midpoint(q) >= 0) by {
            vstd::arithmetic::div_mod::lemma_div_pos_is_pos(
                q.min_value + q.max_value as int, 2);
        }
        assert(midpoint(q) <= q.max_value) by {
            vstd::arithmetic::div_mod::lemma_div_is_ordered(
                q.min_value + q.max_value as int, 2 * (q.max_value as int), 2);
            vstd::arithmetic::div_mod::lemma_div_by_multiple(q.max_value as int, 2);
            vstd::arithmetic::mul::lemma_mul_is_commutative(2, q.max_value as int);
        }
    }
    if a.value < q.min_value - b.value {
        return None;
    }
    if a.value > q.max_value - b.value {
        return None;
    }
    let cnt0 = a.count as usize + b.count as usize;
    if cnt0 > q.max_items as usize {
        return None;
    }
    let val0 = a.value + b.value;
    if val0 < q.min_value || cnt0 < q.min_items as usize {
        let need_val: i64 = if q.min_value > val0 { q.min_value - val0 } else { 0 };
        let need_cnt: usize = if q.min_items as usize > cnt0 { q.min_items as usize - cnt0 } else { 0 };
        let k_val = lower_bound(p, need_val);
        let k = if need_cnt > k_val { need_cnt } else { k_val };
        if k == 0 {
            return None;
        }
        if k > p.len() - 1 {
            return None;
        }
        if k > q.max_items as usize - cnt0 {
            return None;
        }
        let pk = p[k];
        proof {
            assert(p@[0] <= pk <= p@[p@.len() - 1]);
        }
        let val1 = val0 + pk;
        let cnt1 = (cnt0 + k) as u8;
        if val1 > q.max_value {
            return None;
        }
        if val1 >= q.min_value && cnt1 as usize >= q.min_items as usize {
            let dist = if val1 >= mid { val1 - mid } else { mid - val1 };
            return Some(CandE { dist, val: val1, cnt: cnt1, k });
        }
        return None;
    }
    let cnt1 = cnt0 as u8;
    let dist = if val0 >= mid { val0 - mid } else { mid - val0 };
    Some(CandE { dist, val: val0, cnt: cnt1, k: 0 })
}

/// Joins the two half-enumerations and returns the first strictly-best
/// admitted candidate in scan order — exactly the abstract fold `best_cand` —
/// or nothing when the model admits no pair at all.
pub fn combine(ca: &Vec<Combo>, cb: &Vec<Combo>, p: &Vec<i64>, q: Query) -> (r: Option<Best>)
    requires
        combos_bounded(ca@, q),
        combos_bounded(cb@, q),
        query_ok(q),
        q.min_value + q.max_value <= i64::MAX,
        prefix_table_ok(p@, q),
    ensures
        abstract_best(r) == best_cand(ca@, cb@, p@, q),
        best_wf(r, ca@, cb@, p@, q),
        r is None ==> forall|i: int, j: int|
            0 <= i < ca@.len() && 0 <= j < cb@.len()
                ==> #[trigger] eval(ca@[i], cb@[j], p@, q) is None,
{
    let mid: i64 = ((q.min_value as u64 + q.max_value as u64) / 2) as i64;
    proof {
        assert(mid as int == midpoint(q));
    }
    let mut best: Option<Best> = None;
    let mut j: usize = 0;
    while j < cb.len()
        invariant
            combos_bounded(ca@, q),
            combos_bounded(cb@, q),
            query_ok(q),
            q.min_value + q.max_value <= i64::MAX,
            prefix_table_ok(p@, q),
            mid as int == midpoint(q),
            0 <= j <= cb@.len(),
            scan_all(ca@, cb@, p@, q, j as int, abstract_best(best)) == best_cand(ca@, cb@, p@, q),
            best_wf(best, ca@, cb@, p@, q),
        decreases cb@.len() - j,
    {
        let mut i: usize = 0;
        while i < ca.len()
            invariant
                combos_bounded(ca@, q),
                combos_bounded(cb@, q),
                query_ok(q),
                q.min_value + q.max_value <= i64::MAX,
                prefix_table_ok(p@, q),
                mid as int == midpoint(q),
                0 <= j < cb@.len(),
                0 <= i <= ca@.len(),
                scan_all(ca@, cb@, p@, q, j as int + 1,
                    scan_row(ca@, cb@, p@, q, j as int, i as int, abstract_best(best)))
                    == best_cand(ca@, cb@, p@, q),
                best_wf(best, ca@, cb@, p@, q),
            decreases ca@.len() - i,
        {
            let ghost prev = abstract_best(best);
            let c = eval_pair(&ca[i], &cb[j], p, q, mid);
            match c {
                None => {
                    proof {
                        assert(cand_of(ca@, cb@, p@, q, i as int, j as int) is None);
                        assert(step(prev, cand_of(ca@, cb@, p@, q, i as int, j as int)) == prev);
                    }
                },
                Some(c) => {
                    let better = match &best {
                        None => true,
                        Some(b) => c.dist < b.dist,
                    };
                    proof {
                        assert(cand_of(ca@, cb@, p@, q, i as int, j as int) == Some(
                            Cand {
                                dist: c.dist as int,
                                val: c.val as int,
                                cnt: c.cnt as int,
                                k: c.k as int,
                                a_idx: i as int,
                                b_idx: j as int,
                            },
                        ));
                    }
                    if better {
                        best = Some(
                            Best {
                                dist: c.dist,
                                val: c.val,
                                cnt: c.cnt,
                                k_used: c.k,
                                a_idx: i,
                                b_idx: j,
                            },
                        );
                    }
                    proof {
                        assert(abstract_best(best)
                            == step(prev, cand_of(ca@, cb@, p@, q, i as int, j as int)));
                    }
                },
            }
            i += 1;
        }
        j += 1;
    }
    proof {
        law_best_minimal(ca@, cb@, p@, q);
    }
    best
}

/// The exec result always stands for a real admitted candidate.
pub open spec fn best_wf(r: Option<Best>, ca: Seq<Combo>, cb: Seq<Combo>, p: Seq<i64>, q: Query) -> bool {
    match r {
        None => true,
        Some(b) => {
            &&& (b.a_idx as int) < ca.len()
            &&& (b.b_idx as int) < cb.len()
            &&& eval(ca[b.a_idx as int], cb[b.b_idx as int], p, q)
                == Some((b.val as int, b.cnt as int, b.k_used as int))
            &&& b.dist as int == dist_to(b.val as int, midpoint(q))
            &&& 0 <= b.val <= q.max_value
            &&& b.cnt <= q.max_items
        },
    }
}

} // verus!
