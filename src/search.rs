use vstd::prelude::*;

use core::cmp::Ordering;

verus! {

/// Metrics are held in millionths: a metric of 1.5 is stored as 1_500_000.
pub const METRIC_SCALE: i64 = 1_000_000;

/// The averaged metrics of one planner configuration, in millionths: final
/// score, score per 100 calories eaten, count of variety foods, and
/// nutrient balance ratio. Higher is better for each.
#[derive(Debug, Clone, Copy, PartialEq, Eq, Structural)]
pub struct EvaluationResult {
    pub avg_final_sp: i64,
    pub avg_delta_sp_per_100kcal: i64,
    pub avg_variety_count: i64,
    pub avg_balance_ratio: i64,
}

/// Metric `m` of `r`: 0 score, 1 efficiency, 2 variety, 3 balance.
pub open spec fn metric(r: EvaluationResult, m: int) -> int {
    if m == 0 {
        r.avg_final_sp as int
    } else if m == 1 {
        r.avg_delta_sp_per_100kcal as int
    } else if m == 2 {
        r.avg_variety_count as int
    } else {
        r.avg_balance_ratio as int
    }
}

/// `a` is at least as good as `b` in every metric and better in one.
pub open spec fn dominates(a: EvaluationResult, b: EvaluationResult) -> bool {
    &&& a.avg_final_sp >= b.avg_final_sp
    &&& a.avg_delta_sp_per_100kcal >= b.avg_delta_sp_per_100kcal
    &&& a.avg_variety_count >= b.avg_variety_count
    &&& a.avg_balance_ratio >= b.avg_balance_ratio
    &&& (a.avg_final_sp > b.avg_final_sp || a.avg_delta_sp_per_100kcal > b.avg_delta_sp_per_100kcal
        || a.avg_variety_count > b.avg_variety_count || a.avg_balance_ratio > b.avg_balance_ratio)
}

/// Some entry of `s` dominates entry `i`.
pub open spec fn dominated_in(s: Seq<EvaluationResult>, i: int) -> bool {
    exists|j: int| 0 <= j < s.len() && dominates(#[trigger] s[j], s[i])
}

/// Order of two integers.
pub open spec fn int_cmp(a: int, b: int) -> Ordering {
    if a < b {
        Ordering::Less
    } else if a > b {
        Ordering::Greater
    } else {
        Ordering::Equal
    }
}

/// Lexicographic order on (score, efficiency, variety, balance).
pub open spec fn lex_cmp(a: EvaluationResult, b: EvaluationResult) -> Ordering {
    if a.avg_final_sp != b.avg_final_sp {
        int_cmp(a.avg_final_sp as int, b.avg_final_sp as int)
    } else if a.avg_delta_sp_per_100kcal != b.avg_delta_sp_per_100kcal {
        int_cmp(a.avg_delta_sp_per_100kcal as int, b.avg_delta_sp_per_100kcal as int)
    } else if a.avg_variety_count != b.avg_variety_count {
        int_cmp(a.avg_variety_count as int, b.avg_variety_count as int)
    } else {
        int_cmp(a.avg_balance_ratio as int, b.avg_balance_ratio as int)
    }
}

fn cmp_i64(a: i64, b: i64) -> (r: Ordering)
    ensures
        r == int_cmp(a as int, b as int),
{
    if a < b {
        Ordering::Less
    } else if a > b {
        Ordering::Greater
    } else {
        Ordering::Equal
    }
}

impl EvaluationResult {
    /// Build a result from its four metrics, in millionths.
    pub fn new(
        avg_final_sp: i64,
        avg_delta_sp_per_100kcal: i64,
        avg_variety_count: i64,
        avg_balance_ratio: i64,
    ) -> (r: Self)
        ensures
            r == (EvaluationResult {
                avg_final_sp,
                avg_delta_sp_per_100kcal,
                avg_variety_count,
                avg_balance_ratio,
            }),
    {
        EvaluationResult { avg_final_sp, avg_delta_sp_per_100kcal, avg_variety_count, avg_balance_ratio }
    }

    /// Compare by score, then efficiency, then variety, then balance.
    pub fn cmp_score(&self, other: &Self) -> (r: Ordering)
        ensures
            r == lex_cmp(*self, *other),
    {
        if self.avg_final_sp != other.avg_final_sp {
            cmp_i64(self.avg_final_sp, other.avg_final_sp)
        } else if self.avg_delta_sp_per_100kcal != other.avg_delta_sp_per_100kcal {
            cmp_i64(self.avg_delta_sp_per_100kcal, other.avg_delta_sp_per_100kcal)
        } else if self.avg_variety_count != other.avg_variety_count {
            cmp_i64(self.avg_variety_count, other.avg_variety_count)
        } else {
            cmp_i64(self.avg_balance_ratio, other.avg_balance_ratio)
        }
    }

    /// Whether `other` is at least as good in every metric and better in one.
    pub fn is_dominated_by(&self, other: &Self) -> (r: bool)
        ensures
            r == dominates(*other, *self),
    {
        let all_geq = other.avg_final_sp >= self.avg_final_sp && other.avg_delta_sp_per_100kcal
            >= self.avg_delta_sp_per_100kcal && other.avg_variety_count >= self.avg_variety_count
            && other.avg_balance_ratio >= self.avg_balance_ratio;
        let any_better = other.avg_final_sp > self.avg_final_sp || other.avg_delta_sp_per_100kcal
            > self.avg_delta_sp_per_100kcal || other.avg_variety_count > self.avg_variety_count
            || other.avg_balance_ratio > self.avg_balance_ratio;
        all_geq && any_better
    }
}

/// Positions of the results that no other result dominates, in increasing order.
pub fn pareto_frontier(results: &[EvaluationResult]) -> (r: Vec<usize>)
    ensures
        forall|k: int| 0 <= k < r@.len() ==> #[trigger] r@[k] < results@.len(),
        forall|a: int, b: int| 0 <= a < b < r@.len() ==> r@[a] < r@[b],
        forall|k: int| 0 <= k < r@.len() ==> !dominated_in(results@, #[trigger] r@[k] as int),
        forall|i: int| 0 <= i < results@.len() && !dominated_in(results@, i) ==> r@.contains(i as usize),
{
    let mut r: Vec<usize> = Vec::new();
    let mut i: usize = 0;
    while i < results.len()
        invariant
            0 <= i <= results@.len(),
            forall|k: int| 0 <= k < r@.len() ==> #[trigger] r@[k] < i,
            forall|a: int, b: int| 0 <= a < b < r@.len() ==> r@[a] < r@[b],
            forall|k: int| 0 <= k < r@.len() ==> !dominated_in(results@, #[trigger] r@[k] as int),
            forall|t: int| 0 <= t < i && !dominated_in(results@, t) ==> r@.contains(t as usize),
        decreases results@.len() - i,
    {
        let mut beaten = false;
        let mut j: usize = 0;
        while j < results.len()
            invariant
                0 <= i < results@.len(),
                0 <= j <= results@.len(),
                beaten == exists|t: int| 0 <= t < j && dominates(#[trigger] results@[t], results@[i as int]),
            decreases results@.len() - j,
        {
            if results[i].is_dominated_by(&results[j]) {
                beaten = true;
            }
            j += 1;
        }
        if !beaten {
            let ghost prev = r@;
            r.push(i);
            proof {
                assert forall|t: int| 0 <= t < i + 1 && !dominated_in(results@, t) implies r@.contains(t as usize) by {
                    if t < i {
                        let k = choose|k: int| 0 <= k < prev.len() && prev[k] == t as usize;
                        assert(r@[k] == prev[k]);
                    } else {
                        assert(r@[prev.len() as int] == i);
                    }
                }
            }
        }
        i += 1;
    }
    r
}

/// Metric `m` of the results at `indices`, in the order of `indices`.
pub open spec fn metric_values(results: Seq<EvaluationResult>, indices: Seq<usize>, m: int) -> Seq<int> {
    indices.map_values(|i: usize| metric(results[i as int], m))
}

/// The least element of `s` (0 when `s` is empty).
pub open spec fn seq_min(s: Seq<int>) -> int
    decreases s.len(),
{
    if s.len() <= 1 {
        if s.len() == 0 {
            0
        } else {
            s[0]
        }
    } else if s.last() < seq_min(s.drop_last()) {
        s.last()
    } else {
        seq_min(s.drop_last())
    }
}

/// The greatest element of `s` (0 when `s` is empty).
pub open spec fn seq_max(s: Seq<int>) -> int
    decreases s.len(),
{
    if s.len() <= 1 {
        if s.len() == 0 {
            0
        } else {
            s[0]
        }
    } else if s.last() > seq_max(s.drop_last()) {
        s.last()
    } else {
        seq_max(s.drop_last())
    }
}

/// How far `v` falls short of the best value `hi`, as a fraction of the
/// spread `hi - lo`, in millionths; 0 when there is no spread.
pub open spec fn gap(v: int, lo: int, hi: int) -> int {
    if hi <= lo {
        0
    } else {
        (hi - v) * METRIC_SCALE / (hi - lo)
    }
}

/// The shortfall of the result at position `i` in metric `m`, normalised
/// over the results at `indices`.
pub open spec fn metric_gap(results: Seq<EvaluationResult>, indices: Seq<usize>, i: int, m: int) -> int {
    gap(
        metric(results[i], m),
        seq_min(metric_values(results, indices, m)),
        seq_max(metric_values(results, indices, m)),
    )
}

/// Squared distance of the result at position `i` from the ideal point
/// (best in every metric), normalised over the results at `indices`.
pub open spec fn distance(results: Seq<EvaluationResult>, indices: Seq<usize>, i: int) -> int {
    metric_gap(results, indices, i, 0) * metric_gap(results, indices, i, 0) + metric_gap(results, indices, i, 1)
        * metric_gap(results, indices, i, 1) + metric_gap(results, indices, i, 2) * metric_gap(
        results,
        indices,
        i,
        2,
    ) + metric_gap(results, indices, i, 3) * metric_gap(results, indices, i, 3)
}

/// `indices[k]` is nearest the ideal point, and the first such.
pub open spec fn balanced_at(results: Seq<EvaluationResult>, indices: Seq<usize>, k: int) -> bool {
    &&& 0 <= k < indices.len()
    &&& forall|t: int|
        0 <= t < indices.len() ==> distance(results, indices, indices[k] as int) <= distance(
            results,
            indices,
            #[trigger] indices[t] as int,
        )
    &&& forall|t: int|
        0 <= t < k ==> distance(results, indices, #[trigger] indices[t] as int) > distance(
            results,
            indices,
            indices[k] as int,
        )
}

/// `x` is the balanced pick among the results at `indices`.
pub open spec fn is_balanced_pick(results: Seq<EvaluationResult>, indices: Seq<usize>, x: usize) -> bool {
    exists|k: int| balanced_at(results, indices, k) && indices[k] == x
}

proof fn lemma_bounds(s: Seq<int>)
    requires
        s.len() > 0,
    ensures
        forall|k: int| 0 <= k < s.len() ==> seq_min(s) <= #[trigger] s[k] <= seq_max(s),
    decreases s.len(),
{
    if s.len() > 1 {
        lemma_bounds(s.drop_last());
        assert forall|k: int| 0 <= k < s.len() implies seq_min(s) <= #[trigger] s[k] <= seq_max(s) by {
            if k < s.len() - 1 {
                assert(s.drop_last()[k] == s[k]);
            }
        }
    }
}

fn metric_of(r: &EvaluationResult, m: usize) -> (v: i64)
    ensures
        v == metric(*r, m as int),
{
    if m == 0 {
        r.avg_final_sp
    } else if m == 1 {
        r.avg_delta_sp_per_100kcal
    } else if m == 2 {
        r.avg_variety_count
    } else {
        r.avg_balance_ratio
    }
}

/// Least and greatest value of metric `m` over the results at `indices`.
fn metric_bounds(results: &[EvaluationResult], indices: &[usize], m: usize) -> (r: (i64, i64))
    requires
        indices@.len() > 0,
        forall|k: int| 0 <= k < indices@.len() ==> #[trigger] indices@[k] < results@.len(),
    ensures
        r.0 == seq_min(metric_values(results@, indices@, m as int)),
        r.1 == seq_max(metric_values(results@, indices@, m as int)),
{
    let ghost vals = metric_values(results@, indices@, m as int);
    let mut lo = metric_of(&results[indices[0]], m);
    let mut hi = lo;
    let mut k: usize = 1;
    proof {
        assert(vals.take(1) =~= seq![vals[0]]);
    }
    while k < indices.len()
        invariant
            1 <= k <= indices@.len(),
            forall|t: int| 0 <= t < indices@.len() ==> #[trigger] indices@[t] < results@.len(),
            vals == metric_values(results@, indices@, m as int),
            lo == seq_min(vals.take(k as int)),
            hi == seq_max(vals.take(k as int)),
        decreases indices@.len() - k,
    {
        let v = metric_of(&results[indices[k]], m);
        proof {
            assert(vals.take(k + 1).drop_last() =~= vals.take(k as int));
            assert(vals.take(k + 1).last() == vals[k as int]);
        }
        if v < lo {
            lo = v;
        }
        if v > hi {
            hi = v;
        }
        k += 1;
    }
    assert(vals.take(indices@.len() as int) =~= vals);
    (lo, hi)
}

/// The normalised shortfall of `v` between `lo` and `hi`, in millionths.
fn scaled_gap(v: i64, lo: i64, hi: i64) -> (g: i128)
    requires
        lo <= v <= hi,
    ensures
        g == gap(v as int, lo as int, hi as int),
        0 <= g <= METRIC_SCALE,
{
    if hi <= lo {
        0
    } else {
        let diff = hi as i128 - v as i128;
        assert(0 <= diff * 1_000_000 <= 0x1_0000_0000_0000_0000 * 1_000_000) by (nonlinear_arith)
            requires
                0 <= diff <= 0x1_0000_0000_0000_0000,
        ;
        let num = diff * (METRIC_SCALE as i128);
        let den = hi as i128 - lo as i128;
        proof {
            let a = hi as int - v as int;
            let b = hi as int - lo as int;
            assert(0 <= a * METRIC_SCALE <= b * METRIC_SCALE) by (nonlinear_arith)
                requires
                    0 <= a <= b,
            ;
            assert((a * METRIC_SCALE) / b <= (b * METRIC_SCALE) / b) by (nonlinear_arith)
                requires
                    0 <= a * METRIC_SCALE <= b * METRIC_SCALE,
                    b > 0,
            ;
            assert((b * METRIC_SCALE) / b == METRIC_SCALE) by (nonlinear_arith)
                requires
                    b > 0,
            ;
            assert((a * METRIC_SCALE) / b >= 0) by (nonlinear_arith)
                requires
                    a * METRIC_SCALE >= 0,
                    b > 0,
            ;
        }
        num / den
    }
}

/// Among the results at `indices`, the one nearest the ideal point once each
/// metric is scaled to the spread over those results (the first such on a
/// tie); `None` when `indices` is empty.
pub fn select_balanced(results: &[EvaluationResult], indices: &[usize]) -> (r: Option<usize>)
    requires
        forall|k: int| 0 <= k < indices@.len() ==> #[trigger] indices@[k] < results@.len(),
    ensures
        r is None <==> indices@.len() == 0,
        r matches Some(x) ==> is_balanced_pick(results@, indices@, x),
{
    if indices.len() == 0 {
        return None;
    }
    let b0 = metric_bounds(results, indices, 0);
    let b1 = metric_bounds(results, indices, 1);
    let b2 = metric_bounds(results, indices, 2);
    let b3 = metric_bounds(results, indices, 3);
    proof {
        lemma_bounds(metric_values(results@, indices@, 0));
        lemma_bounds(metric_values(results@, indices@, 1));
        lemma_bounds(metric_values(results@, indices@, 2));
        lemma_bounds(metric_values(results@, indices@, 3));
    }
    let mut best_pos: usize = 0;
    let mut best_distance: i128 = 0;
    let mut k: usize = 0;
    while k < indices.len()
        invariant
            0 <= k <= indices@.len(),
            indices@.len() > 0,
            best_pos < indices@.len(),
            forall|t: int| 0 <= t < indices@.len() ==> #[trigger] indices@[t] < results@.len(),
            b0.0 == seq_min(metric_values(results@, indices@, 0)),
            b0.1 == seq_max(metric_values(results@, indices@, 0)),
            b1.0 == seq_min(metric_values(results@, indices@, 1)),
            b1.1 == seq_max(metric_values(results@, indices@, 1)),
            b2.0 == seq_min(metric_values(results@, indices@, 2)),
            b2.1 == seq_max(metric_values(results@, indices@, 2)),
            b3.0 == seq_min(metric_values(results@, indices@, 3)),
            b3.1 == seq_max(metric_values(results@, indices@, 3)),
            forall|t: int|
                0 <= t < indices@.len() ==> seq_min(metric_values(results@, indices@, 0)) <= #[trigger] metric_values(
                    results@,
                    indices@,
                    0,
                )[t] <= seq_max(metric_values(results@, indices@, 0)),
            forall|t: int|
                0 <= t < indices@.len() ==> seq_min(metric_values(results@, indices@, 1)) <= #[trigger] metric_values(
                    results@,
                    indices@,
                    1,
                )[t] <= seq_max(metric_values(results@, indices@, 1)),
            forall|t: int|
                0 <= t < indices@.len() ==> seq_min(metric_values(results@, indices@, 2)) <= #[trigger] metric_values(
                    results@,
                    indices@,
                    2,
                )[t] <= seq_max(metric_values(results@, indices@, 2)),
            forall|t: int|
                0 <= t < indices@.len() ==> seq_min(metric_values(results@, indices@, 3)) <= #[trigger] metric_values(
                    results@,
                    indices@,
                    3,
                )[t] <= seq_max(metric_values(results@, indices@, 3)),
            k > 0 ==> best_distance == distance(results@, indices@, indices@[best_pos as int] as int),
            k > 0 ==> best_pos < k,
            forall|t: int|
                0 <= t < k ==> distance(results@, indices@, indices@[best_pos as int] as int) <= distance(
                    results@,
                    indices@,
                    #[trigger] indices@[t] as int,
                ),
            forall|t: int|
                0 <= t < best_pos ==> distance(results@, indices@, #[trigger] indices@[t] as int) > distance(
                    results@,
                    indices@,
                    indices@[best_pos as int] as int,
                ),
        decreases indices@.len() - k,
    {
        let r = &results[indices[k]];
        proof {
            assert(metric_values(results@, indices@, 0)[k as int] == metric(*r, 0));
            assert(metric_values(results@, indices@, 1)[k as int] == metric(*r, 1));
            assert(metric_values(results@, indices@, 2)[k as int] == metric(*r, 2));
            assert(metric_values(results@, indices@, 3)[k as int] == metric(*r, 3));
        }
        let g0 = scaled_gap(r.avg_final_sp, b0.0, b0.1);
        let g1 = scaled_gap(r.avg_delta_sp_per_100kcal, b1.0, b1.1);
        let g2 = scaled_gap(r.avg_variety_count, b2.0, b2.1);
        let g3 = scaled_gap(r.avg_balance_ratio, b3.0, b3.1);
        proof {
            assert(g0 * g0 <= METRIC_SCALE * METRIC_SCALE) by (nonlinear_arith)
                requires
                    0 <= g0 <= METRIC_SCALE,
            ;
            assert(g1 * g1 <= METRIC_SCALE * METRIC_SCALE) by (nonlinear_arith)
                requires
                    0 <= g1 <= METRIC_SCALE,
            ;
            assert(g2 * g2 <= METRIC_SCALE * METRIC_SCALE) by (nonlinear_arith)
                requires
                    0 <= g2 <= METRIC_SCALE,
            ;
            assert(g3 * g3 <= METRIC_SCALE * METRIC_SCALE) by (nonlinear_arith)
                requires
                    0 <= g3 <= METRIC_SCALE,
            ;
        }
        let d = g0 * g0 + g1 * g1 + g2 * g2 + g3 * g3;
        assert(d == distance(results@, indices@, indices@[k as int] as int));
        if k == 0 || d < best_distance {
            best_pos = k;
            best_distance = d;
        }
        k += 1;
    }
    proof {
        assert(balanced_at(results@, indices@, best_pos as int));
    }
    Some(indices[best_pos])
}

/// `r` lists every position of `results` once, best first by `lex_cmp`,
/// equal results keeping their input order.
pub open spec fn is_ranking(results: Seq<EvaluationResult>, r: Seq<usize>) -> bool {
    &&& r.len() == results.len()
    &&& forall|k: int| 0 <= k < r.len() ==> #[trigger] r[k] < results.len()
    &&& forall|a: int, b: int| 0 <= a < b < r.len() ==> r[a] != r[b]
    &&& forall|i: usize| i < results.len() ==> #[trigger] r.contains(i)
    &&& forall|a: int, b: int|
        0 <= a < b < r.len() ==> lex_cmp(results[#[trigger] r[a] as int], results[#[trigger] r[b] as int])
            != Ordering::Less
    &&& forall|a: int, b: int|
        0 <= a < b < r.len() && lex_cmp(results[#[trigger] r[a] as int], results[#[trigger] r[b] as int])
            == Ordering::Equal ==> r[a] < r[b]
}

proof fn lemma_lex_order(a: EvaluationResult, b: EvaluationResult, c: EvaluationResult)
    ensures
        lex_cmp(a, b) == Ordering::Less <==> lex_cmp(b, a) == Ordering::Greater,
        lex_cmp(a, b) == Ordering::Equal <==> lex_cmp(b, a) == Ordering::Equal,
        lex_cmp(a, b) == Ordering::Less && lex_cmp(a, c) != Ordering::Less ==> lex_cmp(c, b)
            == Ordering::Less,
{
}

/// The positions of `results`, best first: descending by `cmp_score`, with
/// equal results in their input order.
pub fn rank_order(results: &[EvaluationResult]) -> (r: Vec<usize>)
    ensures
        is_ranking(results@, r@),
{
    let mut r: Vec<usize> = Vec::new();
    let mut i: usize = 0;
    while i < results.len()
        invariant
            0 <= i <= results@.len(),
            r@.len() == i,
            forall|k: int| 0 <= k < r@.len() ==> #[trigger] r@[k] < i,
            forall|a: int, b: int| 0 <= a < b < r@.len() ==> r@[a] != r@[b],
            forall|t: usize| t < i ==> #[trigger] r@.contains(t),
            forall|a: int, b: int|
                0 <= a < b < r@.len() ==> lex_cmp(results@[#[trigger] r@[a] as int], results@[#[trigger] r@[b] as int])
                    != Ordering::Less,
            forall|a: int, b: int|
                0 <= a < b < r@.len() && lex_cmp(results@[#[trigger] r@[a] as int], results@[#[trigger] r@[b] as int])
                    == Ordering::Equal ==> r@[a] < r@[b],
        decreases results@.len() - i,
    {
        let item = &results[i];
        // The first position holding a result that `item` beats.
        let mut p: usize = 0;
        let mut found = false;
        while !found && p < r.len()
            invariant
                0 <= p <= r@.len(),
                i < results@.len(),
                *item == results@[i as int],
                forall|k: int| 0 <= k < r@.len() ==> #[trigger] r@[k] < i,
                forall|k: int| 0 <= k < p ==> lex_cmp(results@[#[trigger] r@[k] as int], results@[i as int])
                    != Ordering::Less,
                found ==> p < r@.len() && lex_cmp(results@[r@[p as int] as int], results@[i as int])
                    == Ordering::Less,
            decreases r@.len() - p + if found { 0int } else { 1int },
        {
            match results[r[p]].cmp_score(item) {
                Ordering::Less => {
                    found = true;
                },
                _ => {
                    p += 1;
                },
            }
        }
        let ghost prev = r@;
        r.insert(p, i);
        proof {
            prev.insert_ensures(p as int, i);
            assert(r@ == prev.insert(p as int, i));
            assert forall|k: int| 0 <= k < r@.len() implies #[trigger] r@[k] < i + 1 by {
                if k > p {
                    assert(r@[k] == prev[k - 1]);
                }
            }
            assert forall|t: usize| t < i + 1 implies #[trigger] r@.contains(t) by {
                if t < i {
                    assert(prev.contains(t));
                    let k = choose|k: int| 0 <= k < prev.len() && prev[k] == t;
                    if k < p {
                        assert(r@[k] == prev[k]);
                    } else {
                        assert(r@[k + 1] == prev[k]);
                    }
                } else {
                    assert(r@[p as int] == i);
                }
            }
            assert forall|a: int, b: int| 0 <= a < b < r@.len() implies r@[a] != r@[b] by {
                if a > p {
                    assert(r@[a] == prev[a - 1]);
                }
                if b > p {
                    assert(r@[b] == prev[b - 1]);
                }
            }
            assert forall|a: int, b: int|
                0 <= a < b < r@.len() implies lex_cmp(results@[#[trigger] r@[a] as int], results@[#[trigger] r@[b] as int])
                    != Ordering::Less && (lex_cmp(results@[r@[a] as int], results@[r@[b] as int])
                    == Ordering::Equal ==> r@[a] < r@[b]) by {
                let ra = r@[a] as int;
                let rb = r@[b] as int;
                if a < p && b < p {
                } else if a < p && b == p {
                    lemma_lex_order(results@[ra], results@[rb], results@[rb]);
                } else if a < p {
                    assert(r@[b] == prev[b - 1]);
                } else if a == p {
                    assert(r@[b] == prev[b - 1]);
                    assert(p < prev.len());
                    let rp = prev[p as int] as int;
                    if b - 1 > p {
                        assert(lex_cmp(results@[rp], results@[rb]) != Ordering::Less);
                    }
                    lemma_lex_order(results@[rp], results@[ra], results@[rb]);
                    lemma_lex_order(results@[ra], results@[rb], results@[rb]);
                } else {
                    assert(r@[a] == prev[a - 1]);
                    assert(r@[b] == prev[b - 1]);
                }
            }
        }
        i += 1;
    }
    r
}

/// Two rankings that agree before position `k` agree at `k` too.
proof fn lemma_rankings_agree_at(results: Seq<EvaluationResult>, r1: Seq<usize>, r2: Seq<usize>, k: int)
    requires
        is_ranking(results, r1),
        is_ranking(results, r2),
        0 <= k < r1.len(),
        forall|t: int| 0 <= t < k ==> r1[t] == r2[t],
    ensures
        r1[k] == r2[k],
{
    let x = r1[k];
    let y = r2[k];
    if x != y {
        // `x` comes after position `k` in `r2`, and `y` after `k` in `r1`.
        assert(r2.contains(x));
        let j = choose|j: int| 0 <= j < r2.len() && r2[j] == x;
        if j < k {
            assert(r1[j] == x);
        }
        assert(r1.contains(y));
        let j2 = choose|j2: int| 0 <= j2 < r1.len() && r1[j2] == y;
        if j2 < k {
            assert(r2[j2] == y);
        }
        assert(lex_cmp(results[r2[k] as int], results[r2[j] as int]) != Ordering::Less);
        assert(lex_cmp(results[r1[k] as int], results[r1[j2] as int]) != Ordering::Less);
        lemma_lex_order(results[x as int], results[y as int], results[y as int]);
        assert(lex_cmp(results[x as int], results[y as int]) == Ordering::Equal);
        assert(r1[k] < r1[j2]);
        assert(r2[k] < r2[j]);
    }
}

proof fn lemma_rankings_agree_upto(results: Seq<EvaluationResult>, r1: Seq<usize>, r2: Seq<usize>, k: int)
    requires
        is_ranking(results, r1),
        is_ranking(results, r2),
        0 <= k <= r1.len(),
    ensures
        forall|t: int| 0 <= t < k ==> r1[t] == r2[t],
    decreases k,
{
    if k > 0 {
        lemma_rankings_agree_upto(results, r1, r2, k - 1);
        lemma_rankings_agree_at(results, r1, r2, k - 1);
    }
}

/// Ranking is deterministic: a list of results has exactly one ranking, so
/// ranking the same results twice gives the same order.
pub proof fn lemma_ranking_unique(results: Seq<EvaluationResult>, r1: Seq<usize>, r2: Seq<usize>)
    requires
        is_ranking(results, r1),
        is_ranking(results, r2),
    ensures
        r1 == r2,
{
    lemma_rankings_agree_upto(results, r1, r2, r1.len() as int);
    assert(r1 =~= r2);
}

/// Where a hill climb over a configuration's knobs stands.
///
/// Each pass tries, for every knob in turn, each perturbation factor in turn.
/// A probe whose outcome dominates the best result so far is accepted and the
/// pass moves to the next knob. A pass with no accepted probe ends the climb,
/// as does reaching `max_iterations` passes. The caller runs the probes:
/// `next_probe` names the knob and factor to try, `report` takes the outcome.
pub struct HillClimb {
    pub best: EvaluationResult,
    pub max_iterations: usize,
    pub num_knobs: usize,
    pub num_factors: usize,
    pub iteration: usize,
    pub knob: usize,
    pub factor: usize,
    pub improved: bool,
    pub finished: bool,
}

/// The state after reporting `outcome` in state `s` (`None`: the probe left
/// the knobs unchanged and was not evaluated).
pub open spec fn climb_step(s: HillClimb, outcome: Option<EvaluationResult>) -> HillClimb {
    let accepted = outcome matches Some(m) && dominates(m, s.best);
    let best = if accepted {
        outcome->0
    } else {
        s.best
    };
    let improved = s.improved || accepted;
    let next_knob = accepted || s.factor + 1 >= s.num_factors;
    let knob = if next_knob {
        (s.knob + 1) as usize
    } else {
        s.knob
    };
    let factor = if next_knob {
        0usize
    } else {
        (s.factor + 1) as usize
    };
    if knob < s.num_knobs {
        HillClimb { best, improved, knob, factor, ..s }
    } else if !improved || s.iteration + 1 >= s.max_iterations {
        HillClimb { best, improved, knob: 0, factor: 0, finished: true, ..s }
    } else {
        HillClimb { best, improved: false, knob: 0, factor: 0, iteration: (s.iteration + 1) as usize, ..s }
    }
}

impl HillClimb {
    /// An unfinished climb points at a valid pass, knob and factor.
    pub open spec fn wf(&self) -> bool {
        self.finished || (self.iteration < self.max_iterations && self.knob < self.num_knobs && self.factor
            < self.num_factors)
    }

    /// Start a climb from `start`, with up to `max_iterations` passes over
    /// `num_knobs` knobs and `num_factors` factors.
    pub fn new(start: EvaluationResult, max_iterations: usize, num_knobs: usize, num_factors: usize) -> (r: Self)
        ensures
            r.wf(),
            r == (HillClimb {
                best: start,
                max_iterations,
                num_knobs,
                num_factors,
                iteration: 0,
                knob: 0,
                factor: 0,
                improved: false,
                finished: max_iterations == 0 || num_knobs == 0 || num_factors == 0,
            }),
    {
        HillClimb {
            best: start,
            max_iterations,
            num_knobs,
            num_factors,
            iteration: 0,
            knob: 0,
            factor: 0,
            improved: false,
            finished: max_iterations == 0 || num_knobs == 0 || num_factors == 0,
        }
    }

    /// The knob and factor to try next, or `None` once the climb is over.
    pub fn next_probe(&self) -> (r: Option<(usize, usize)>)
        ensures
            r == if self.finished {
                None
            } else {
                Some((self.knob, self.factor))
            },
    {
        if self.finished {
            None
        } else {
            Some((self.knob, self.factor))
        }
    }

    /// Take the outcome of the current probe; true when it was accepted as
    /// the new best.
    pub fn report(&mut self, outcome: Option<EvaluationResult>) -> (accepted: bool)
        requires
            old(self).wf(),
            !old(self).finished,
        ensures
            accepted == (outcome matches Some(m) && dominates(m, old(self).best)),
            *final(self) == climb_step(*old(self), outcome),
            final(self).wf(),
    {
        let accepted = match outcome {
            Some(m) => self.best.is_dominated_by(&m),
            None => false,
        };
        if accepted {
            match outcome {
                Some(m) => {
                    self.best = m;
                },
                None => {},
            }
        }
        self.improved = self.improved || accepted;
        if accepted || self.factor + 1 >= self.num_factors {
            self.knob = self.knob + 1;
            self.factor = 0;
        } else {
            self.factor = self.factor + 1;
        }
        if self.knob >= self.num_knobs {
            self.knob = 0;
            self.factor = 0;
            if !self.improved || self.iteration + 1 >= self.max_iterations {
                self.finished = true;
            } else {
                self.improved = false;
                self.iteration = self.iteration + 1;
            }
        }
        accepted
    }
}

/// Every report moves the climb forward: it finishes, or it goes on to a
/// later pass, a later knob of the same pass, or a later factor of the same
/// knob. Since these are bounded, a climb ends after at most
/// `max_iterations * num_knobs * num_factors` reports; and the best result
/// only ever changes to one that dominates it.
pub proof fn lemma_climb_progress(s: HillClimb, outcome: Option<EvaluationResult>)
    requires
        s.wf(),
        !s.finished,
    ensures
        ({
            let t = climb_step(s, outcome);
            &&& t.wf()
            &&& t.finished || t.iteration > s.iteration || (t.iteration == s.iteration && (t.knob > s.knob || (
            t.knob == s.knob && t.factor > s.factor)))
            &&& t.best == s.best || dominates(t.best, s.best)
            &&& t.max_iterations == s.max_iterations && t.num_knobs == s.num_knobs && t.num_factors == s.num_factors
        }),
{
}

} // verus!
