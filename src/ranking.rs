use vstd::prelude::*;

verus! {

/// What the scorer says of one candidate bite, in millionths: its raw rank
/// (score gained plus low-calorie penalty), the sum of its ranking biases,
/// and its proximity bias, which breaks ties.
#[derive(Debug, Clone, Copy, PartialEq, Eq, Structural)]
pub struct CandidateScore {
    pub rank_score: i64,
    pub bias: i64,
    pub proximity_bias: i64,
}

/// The highest raw rank among `c` (0 when `c` is empty).
pub open spec fn max_rank(c: Seq<CandidateScore>) -> int
    decreases c.len(),
{
    if c.len() == 0 {
        0
    } else if c.len() == 1 {
        c[0].rank_score as int
    } else if c.last().rank_score > max_rank(c.drop_last()) {
        c.last().rank_score as int
    } else {
        max_rank(c.drop_last())
    }
}

/// Candidate `k` ranks within `tie_epsilon` of the best raw rank.
pub open spec fn finalist(c: Seq<CandidateScore>, tie_epsilon: i64, k: int) -> bool {
    0 <= k < c.len() && c[k].rank_score >= max_rank(c) - tie_epsilon
}

/// Raw rank plus biases.
pub open spec fn primary(x: CandidateScore) -> int {
    x.rank_score + x.bias
}

/// `a` orders strictly before `b`: higher primary score, or equal primary
/// score and higher proximity bias.
pub open spec fn outranks(a: CandidateScore, b: CandidateScore) -> bool {
    primary(a) > primary(b) || (primary(a) == primary(b) && a.proximity_bias > b.proximity_bias)
}

/// Candidate `k` is the pick: a finalist that no finalist outranks, and the
/// first such.
pub open spec fn picked(c: Seq<CandidateScore>, tie_epsilon: i64, k: int) -> bool {
    &&& finalist(c, tie_epsilon, k)
    &&& forall|j: int| finalist(c, tie_epsilon, j) ==> !outranks(#[trigger] c[j], c[k])
    &&& forall|j: int| 0 <= j < k && finalist(c, tie_epsilon, j) ==> outranks(c[k], #[trigger] c[j])
}

/// The best value of `v` and its last position: `v[k]` is a maximum and no
/// later entry equals it.
pub open spec fn last_maximum(v: Seq<i64>, k: int) -> bool {
    &&& 0 <= k < v.len()
    &&& forall|j: int| 0 <= j < v.len() ==> #[trigger] v[j] <= v[k]
    &&& forall|j: int| k < j < v.len() ==> #[trigger] v[j] < v[k]
}

proof fn lemma_max_rank(c: Seq<CandidateScore>)
    requires
        c.len() > 0,
    ensures
        forall|k: int| 0 <= k < c.len() ==> #[trigger] c[k].rank_score <= max_rank(c),
        exists|k: int| 0 <= k < c.len() && #[trigger] c[k].rank_score == max_rank(c),
    decreases c.len(),
{
    if c.len() > 1 {
        lemma_max_rank(c.drop_last());
        assert forall|k: int| 0 <= k < c.len() implies #[trigger] c[k].rank_score <= max_rank(c) by {
            if k < c.len() - 1 {
                assert(c.drop_last()[k] == c[k]);
            }
        }
        if c.last().rank_score > max_rank(c.drop_last()) {
            assert(c[c.len() - 1].rank_score == max_rank(c));
        } else {
            let k = choose|k: int| 0 <= k < c.len() - 1 && #[trigger] c.drop_last()[k].rank_score == max_rank(c.drop_last());
            assert(c[k] == c.drop_last()[k]);
        }
    } else {
        assert(c[0].rank_score == max_rank(c));
    }
}

/// Pick the next bite among scored candidates: keep those whose raw rank is
/// within `tie_epsilon` of the best, then take the one with the highest raw
/// rank plus biases, breaking ties by proximity bias and then by position.
/// Returns the position in `candidates`; `None` when no candidate is a
/// finalist, which with a non-negative epsilon means there are none.
pub fn select_candidate(candidates: &[CandidateScore], tie_epsilon: i64) -> (r: Option<usize>)
    ensures
        r is None <==> forall|k: int| !finalist(candidates@, tie_epsilon, k),
        candidates@.len() > 0 && tie_epsilon >= 0 ==> r is Some,
        r matches Some(k) ==> picked(candidates@, tie_epsilon, k as int),
{
    if candidates.len() == 0 {
        return None;
    }
    let ghost c = candidates@;
    proof {
        lemma_max_rank(c);
    }
    // The best raw rank.
    let mut best_rank: i64 = candidates[0].rank_score;
    let mut i: usize = 1;
    proof {
        assert(c.take(1) =~= seq![c[0]]);
    }
    while i < candidates.len()
        invariant
            1 <= i <= c.len(),
            c == candidates@,
            best_rank == max_rank(c.take(i as int)),
        decreases c.len() - i,
    {
        proof {
            assert(c.take(i + 1).drop_last() =~= c.take(i as int));
        }
        if candidates[i].rank_score > best_rank {
            best_rank = candidates[i].rank_score;
        }
        i += 1;
    }
    proof {
        assert(c.take(c.len() as int) =~= c);
    }
    let threshold: i128 = best_rank as i128 - tie_epsilon as i128;
    // The first finalist that no finalist outranks.
    let mut found = false;
    let mut best: usize = 0;
    let mut k: usize = 0;
    while k < candidates.len()
        invariant
            0 <= k <= c.len(),
            c == candidates@,
            threshold == max_rank(c) - tie_epsilon,
            found ==> best < k && finalist(c, tie_epsilon, best as int),
            !found ==> forall|j: int| 0 <= j < k ==> !finalist(c, tie_epsilon, j),
            found ==> forall|j: int| 0 <= j < k && finalist(c, tie_epsilon, j) ==> !outranks(#[trigger] c[j], c[best as int]),
            found ==> forall|j: int|
                0 <= j < best && finalist(c, tie_epsilon, j) ==> outranks(c[best as int], #[trigger] c[j]),
        decreases c.len() - k,
    {
        let x = candidates[k];
        if x.rank_score as i128 >= threshold {
            if !found {
                found = true;
                best = k;
            } else {
                let y = candidates[best];
                let px = x.rank_score as i128 + x.bias as i128;
                let py = y.rank_score as i128 + y.bias as i128;
                if px > py || (px == py && x.proximity_bias > y.proximity_bias) {
                    best = k;
                }
            }
        }
        k += 1;
    }
    proof {
        if tie_epsilon >= 0 {
            let m = choose|m: int| 0 <= m < c.len() && #[trigger] c[m].rank_score == max_rank(c);
            assert(finalist(c, tie_epsilon, m));
        }
    }
    if found {
        Some(best)
    } else {
        None
    }
}

/// Position of the largest value, the last one when several are largest;
/// `None` when `values` is empty.
pub fn pick_highest(values: &[i64]) -> (r: Option<usize>)
    ensures
        r is None <==> values@.len() == 0,
        r matches Some(k) ==> last_maximum(values@, k as int),
{
    if values.len() == 0 {
        return None;
    }
    let mut best: usize = 0;
    let mut i: usize = 1;
    while i < values.len()
        invariant
            1 <= i <= values@.len(),
            best < i,
            forall|j: int| 0 <= j < i ==> #[trigger] values@[j] <= values@[best as int],
            forall|j: int| best < j < i ==> #[trigger] values@[j] < values@[best as int],
        decreases values@.len() - i,
    {
        if values[i] >= values[best] {
            best = i;
        }
        i += 1;
    }
    Some(best)
}

} // verus!
