use vstd::prelude::*;
use vstd::string::*;

use crate::accumulator::{score_or_zero, ScoreAccumulator};
use crate::config::{MatchConfig, SCALE};
use crate::database::ReferenceDatabase;

verus! {

/// Index of the first highest present entry among the first `n`.
pub open spec fn argmax_upto(s: Seq<Option<u64>>, n: nat) -> Option<int>
    decreases n,
{
    if n == 0 {
        None
    } else {
        let prev = argmax_upto(s, (n - 1) as nat);
        match s[n - 1] {
            None => prev,
            Some(v) => match prev {
                None => Some((n - 1) as int),
                Some(j) => if v > score_or_zero(s[j]) {
                    Some((n - 1) as int)
                } else {
                    prev
                },
            },
        }
    }
}

/// The `k` highest-scoring segments, highest first, ties in index order.
pub open spec fn top_k(s: Seq<Option<u64>>, k: nat) -> Seq<int>
    decreases k,
{
    if k == 0 {
        seq![]
    } else {
        match argmax_upto(s, s.len()) {
            None => seq![],
            Some(b) => seq![b] + top_k(s.update(b, None), (k - 1) as nat),
        }
    }
}

/// Index of the first highest present entry.
fn argmax(s: &Vec<Option<u64>>) -> (r: Option<usize>)
    ensures
        match r {
            Some(i) => argmax_upto(s@, s@.len()) == Some(i as int),
            None => argmax_upto(s@, s@.len()) is None,
        },
        r matches Some(i) ==> i < s@.len(),
{
    let mut best: Option<usize> = None;
    let mut best_score: u64 = 0;
    let mut i: usize = 0;
    while i < s.len()
        invariant
            i <= s@.len(),
            match best {
                Some(b) => argmax_upto(s@, i as nat) == Some(b as int) && b < i
                    && best_score == score_or_zero(s@[b as int]),
                None => argmax_upto(s@, i as nat) is None,
            },
        decreases s@.len() - i,
    {
        if let Some(v) = s[i] {
            match best {
                None => {
                    best = Some(i);
                    best_score = v;
                },
                Some(_) => {
                    if v > best_score {
                        best = Some(i);
                        best_score = v;
                    }
                },
            }
        }
        i = i + 1;
    }
    best
}

/// Indices of the `k` highest-scoring segments, highest first; equal scores
/// come in index order, and segments that never won a frame are left out.
pub fn rank_top(acc: &ScoreAccumulator, k: usize) -> (r: Vec<usize>)
    ensures
        r@.map_values(|i: usize| i as int) == top_k(acc@, k as nat),
{
    let mut work: Vec<Option<u64>> = Vec::new();
    let mut i: usize = 0;
    while i < acc.len()
        invariant
            i <= acc@.len(),
            work@ == acc@.subrange(0, i as int),
        decreases acc@.len() - i,
    {
        work.push(acc.entry(i));
        i = i + 1;
    }
    assert(work@ =~= acc@);
    let mut ranked: Vec<usize> = Vec::new();
    let mut t: usize = 0;
    while t < k
        invariant
            t <= k,
            ranked@.map_values(|i: usize| i as int) + top_k(work@, (k - t) as nat) == top_k(
                acc@,
                k as nat,
            ),
        decreases k - t,
    {
        let m = argmax(&work);
        match m {
            None => {
                assert(top_k(work@, (k - t) as nat) =~= seq![]);
                assert(ranked@.map_values(|i: usize| i as int) + seq![] =~= ranked@.map_values(
                    |i: usize| i as int,
                ));
                return ranked;
            },
            Some(b) => {
                let ghost before = ranked@.map_values(|i: usize| i as int);
                let ghost rest = top_k(work@.update(b as int, None), (k - t - 1) as nat);
                assert(top_k(work@, (k - t) as nat) == seq![b as int] + rest);
                ranked.push(b);
                work.set(b, None);
                assert(ranked@.map_values(|i: usize| i as int) =~= before.push(b as int));
                assert(before + (seq![b as int] + rest) =~= before.push(b as int) + rest);
            },
        }
        t = t + 1;
    }
    assert(top_k(work@, 0) =~= seq![]);
    assert(ranked@.map_values(|i: usize| i as int) + seq![] =~= ranked@.map_values(
        |i: usize| i as int,
    ));
    ranked
}


/// Sum of a sequence of integers.
pub open spec fn sum_int(s: Seq<int>) -> int
    decreases s.len(),
{
    if s.len() == 0 {
        0
    } else {
        sum_int(s.drop_last()) + s.last()
    }
}

pub open spec fn u64s(s: Seq<u64>) -> Seq<int> {
    s.map_values(|v: u64| v as int)
}

/// `v` as a share of `total`, in `SCALE` units, rounded down.
pub open spec fn scaled(v: int, total: int) -> int {
    (v * SCALE) / total
}

proof fn lemma_sum_nonneg_bound(s: Seq<int>, bound: int)
    requires
        bound >= 0,
        forall|i: int| 0 <= i < s.len() ==> 0 <= #[trigger] s[i] <= bound,
    ensures
        0 <= sum_int(s) <= s.len() * bound,
        forall|i: int| 0 <= i < s.len() ==> #[trigger] s[i] <= sum_int(s),
    decreases s.len(),
{
    if s.len() > 0 {
        let p = s.drop_last();
        assert forall|i: int| 0 <= i < p.len() implies 0 <= #[trigger] p[i] <= bound by {
            assert(p[i] == s[i]);
        }
        lemma_sum_nonneg_bound(p, bound);
        assert forall|i: int| 0 <= i < s.len() implies #[trigger] s[i] <= sum_int(s) by {
            if i < p.len() {
                assert(p[i] == s[i]);
            }
        }
        assert((s.len() - 1) * bound + bound == s.len() * bound) by (nonlinear_arith);
    }
}

proof fn lemma_sum_prefix_mono(s: Seq<int>, i: int)
    requires
        0 <= i <= s.len(),
        forall|j: int| 0 <= j < s.len() ==> 0 <= #[trigger] s[j],
    ensures
        sum_int(s.take(i)) <= sum_int(s),
    decreases s.len() - i,
{
    if i < s.len() {
        lemma_sum_prefix_mono(s, i + 1);
        assert(s.take(i + 1).drop_last() =~= s.take(i));
        assert(s.take(i + 1).last() == s[i]);
    } else {
        assert(s.take(i) =~= s);
    }
}

/// Sum of the rounded-down shares times the total is at most `SCALE` times
/// the sum of the shared values.
proof fn lemma_scaled_sum(vals: Seq<int>, total: int)
    requires
        total > 0,
        forall|i: int| 0 <= i < vals.len() ==> 0 <= #[trigger] vals[i],
    ensures
        sum_int(Seq::new(vals.len(), |i: int| scaled(vals[i], total))) * total <= SCALE * sum_int(
            vals,
        ),
    decreases vals.len(),
{
    let q = Seq::new(vals.len(), |i: int| scaled(vals[i], total));
    if vals.len() > 0 {
        let p = vals.drop_last();
        lemma_scaled_sum(p, total);
        let qp = Seq::new(p.len(), |i: int| scaled(p[i], total));
        assert(q.drop_last() =~= qp);
        let v = vals.last();
        let a = sum_int(qp);
        let b = sum_int(p);
        assert(scaled(v, total) * total <= v * SCALE) by (nonlinear_arith)
            requires
                v >= 0,
                total > 0,
        ;
        assert((a + scaled(v, total)) * total == a * total + scaled(v, total) * total)
            by (nonlinear_arith);
        assert(SCALE * (b + v) == SCALE * b + v * SCALE) by (nonlinear_arith);
    }
}

/// Normalizes values by their sum ("scaled probability" in `SCALE` units,
/// rounded down). `None` when the sum is zero, which covers an empty input.
pub fn scale_results(values: &[u64]) -> (r: Option<Vec<u64>>)
    ensures
        r is None <==> sum_int(u64s(values@)) == 0,
        r matches Some(out) ==> {
            &&& out@.len() == values@.len()
            &&& forall|i: int|
                0 <= i < values@.len() ==> #[trigger] out@[i] == scaled(
                    values@[i] as int,
                    sum_int(u64s(values@)),
                )
            &&& sum_int(u64s(out@)) <= SCALE
        },
{
    let ghost vs = u64s(values@);
    let mut total: u128 = 0;
    let mut i: usize = 0;
    while i < values.len()
        invariant
            i <= values@.len(),
            vs == u64s(values@),
            total == sum_int(vs.take(i as int)),
            total <= i * (u64::MAX as int),
        decreases values@.len() - i,
    {
        proof {
            assert(vs.take(i + 1).drop_last() =~= vs.take(i as int));
            assert(i * (u64::MAX as int) + u64::MAX == (i + 1) * (u64::MAX as int))
                by (nonlinear_arith);
            assert((i + 1) * (u64::MAX as int) <= 0x1_0000_0000_0000_0000 * (u64::MAX as int))
                by (nonlinear_arith)
                requires
                    i < 0x1_0000_0000_0000_0000,
            ;
        }
        total = total + values[i] as u128;
        i = i + 1;
    }
    assert(vs.take(values@.len() as int) =~= vs);
    if total == 0 {
        return None;
    }
    proof {
        lemma_sum_nonneg_bound(vs, u64::MAX as int);
    }
    let mut out: Vec<u64> = Vec::new();
    let mut j: usize = 0;
    while j < values.len()
        invariant
            j <= values@.len(),
            vs == u64s(values@),
            total == sum_int(vs),
            total > 0,
            forall|k: int| 0 <= k < vs.len() ==> #[trigger] vs[k] <= sum_int(vs),
            out@.len() == j,
            forall|k: int|
                0 <= k < j ==> #[trigger] out@[k] == scaled(values@[k] as int, total as int),
        decreases values@.len() - j,
    {
        let v = values[j];
        assert(vs[j as int] == v as int);
        assert((v as int) * SCALE <= 0x1_0000_0000_0000_0000 * SCALE) by (nonlinear_arith);
        let q: u128 = (v as u128) * (SCALE as u128) / total;
        assert(q <= SCALE) by (nonlinear_arith)
            requires
                q == (v as int * SCALE) / (total as int),
                v <= total,
                total > 0,
        ;
        out.push(q as u64);
        j = j + 1;
    }
    proof {
        let qs = Seq::new(vs.len(), |i: int| scaled(vs[i], total as int));
        lemma_scaled_sum(vs, total as int);
        assert(u64s(out@) =~= qs);
        assert(sum_int(qs) <= SCALE) by (nonlinear_arith)
            requires
                sum_int(qs) * total <= SCALE * total,
                total > 0,
        ;
    }
    Some(out)
}

/// Stream time in milliseconds for `bytes` of decoded audio, rounded down.
pub fn elapsed_millis(bytes: u64, cfg: &MatchConfig) -> (r: u128)
    requires
        cfg.wf(),
    ensures
        r == (bytes as int * 1000) / cfg.bytes_per_second(),
{
    let rate = cfg.sample_rate as u128;
    let ch = cfg.channels as u128;
    let bps = cfg.bytes_per_sample as u128;
    assert(rate * ch <= 0x1_0000_0000_0000_0000) by (nonlinear_arith)
        requires
            rate <= u32::MAX,
            ch <= u32::MAX,
    ;
    assert(rate * ch * bps <= 0x1_0000_0000_0000_0000 * 0x1_0000_0000) by (nonlinear_arith)
        requires
            rate * ch <= 0x1_0000_0000_0000_0000,
            bps <= u32::MAX,
    ;
    assert(rate * ch * bps > 0) by (nonlinear_arith)
        requires
            rate > 0,
            ch > 0,
            bps > 0,
    ;
    let denom = rate * ch * bps;
    (bytes as u128) * 1000 / denom
}


proof fn lemma_argmax_range(s: Seq<Option<u64>>, n: nat)
    requires
        n <= s.len(),
    ensures
        argmax_upto(s, n) matches Some(j) ==> 0 <= j < n && s[j] is Some,
    decreases n,
{
    if n > 0 {
        lemma_argmax_range(s, (n - 1) as nat);
    }
}

/// Ranked indices are valid positions of entries that are present.
pub proof fn lemma_top_k_range(s: Seq<Option<u64>>, k: nat)
    ensures
        top_k(s, k).len() <= k,
        forall|j: int|
            0 <= j < top_k(s, k).len() ==> 0 <= #[trigger] top_k(s, k)[j] < s.len()
                && s[top_k(s, k)[j]] is Some,
    decreases k,
{
    if k > 0 {
        lemma_argmax_range(s, s.len());
        if let Some(b) = argmax_upto(s, s.len()) {
            let u = s.update(b, None);
            lemma_top_k_range(u, (k - 1) as nat);
            assert forall|j: int| 0 <= j < top_k(s, k).len() implies 0 <= #[trigger] top_k(
                s,
                k,
            )[j] < s.len() && s[top_k(s, k)[j]] is Some by {
                if j > 0 {
                    assert(top_k(s, k)[j] == top_k(u, (k - 1) as nat)[j - 1]);
                }
            }
        }
    }
}

proof fn lemma_argmax_max(s: Seq<Option<u64>>, n: nat)
    requires
        n <= s.len(),
    ensures
        argmax_upto(s, n) matches Some(b) ==> forall|i: int|
            0 <= i < n && (#[trigger] s[i]) is Some ==> score_or_zero(s[i]) <= score_or_zero(s[b]),
        argmax_upto(s, n) is None ==> forall|i: int| 0 <= i < n ==> (#[trigger] s[i]) is None,
    decreases n,
{
    if n > 0 {
        lemma_argmax_max(s, (n - 1) as nat);
        lemma_argmax_range(s, (n - 1) as nat);
        let m = (n - 1) as int;
        if let Some(b) = argmax_upto(s, n) {
            assert forall|i: int| 0 <= i < n && (#[trigger] s[i]) is Some implies score_or_zero(s[i])
                <= score_or_zero(s[b]) by {
                if i < m {
                    assert(argmax_upto(s, m as nat) is Some);
                }
            }
        }
    }
}

/// The ranking runs from the highest score down.
pub proof fn lemma_top_k_sorted(s: Seq<Option<u64>>, k: nat)
    ensures
        forall|j: int|
            0 <= j && j + 1 < top_k(s, k).len() ==> score_or_zero(s[#[trigger] top_k(s, k)[j]])
                >= score_or_zero(s[top_k(s, k)[j + 1]]),
    decreases k,
{
    if k > 0 {
        lemma_argmax_range(s, s.len());
        lemma_argmax_max(s, s.len());
        if let Some(b) = argmax_upto(s, s.len()) {
            let u = s.update(b, None);
            let km = (k - 1) as nat;
            lemma_top_k_sorted(u, km);
            lemma_top_k_range(u, km);
            let t = top_k(s, k);
            let tu = top_k(u, km);
            assert(t == seq![b] + tu);
            assert forall|j: int| 0 <= j && j + 1 < t.len() implies score_or_zero(
                s[#[trigger] t[j]],
            ) >= score_or_zero(s[t[j + 1]]) by {
                assert(t[j + 1] == tu[j]);
                assert(u[tu[j]] is Some);
                assert(tu[j] != b);
                assert(s[tu[j]] == u[tu[j]]);
                if j > 0 {
                    assert(t[j] == tu[j - 1]);
                    assert(u[tu[j - 1]] is Some);
                    assert(s[tu[j - 1]] == u[tu[j - 1]]);
                }
            }
        }
    }
}

/// The ranking keeps the best: a segment with a score that is left out
/// scores no higher than any ranked one, and when fewer than `k` are ranked,
/// every segment with a score is ranked.
pub proof fn lemma_top_k_dominates(s: Seq<Option<u64>>, k: nat)
    ensures
        forall|i: int, j: int|
            0 <= i < s.len() && s[i] is Some && !top_k(s, k).contains(i) && 0 <= j < top_k(
                s,
                k,
            ).len() ==> score_or_zero(#[trigger] s[i]) <= score_or_zero(
                s[#[trigger] top_k(s, k)[j]],
            ),
        top_k(s, k).len() < k ==> forall|i: int|
            0 <= i < s.len() && (#[trigger] s[i]) is Some ==> top_k(s, k).contains(i),
    decreases k,
{
    if k > 0 {
        lemma_argmax_range(s, s.len());
        lemma_argmax_max(s, s.len());
        if let Some(b) = argmax_upto(s, s.len()) {
            let u = s.update(b, None);
            let km = (k - 1) as nat;
            lemma_top_k_dominates(u, km);
            lemma_top_k_range(u, km);
            let t = top_k(s, k);
            let tu = top_k(u, km);
            assert(t == seq![b] + tu);
            assert forall|i: int, j: int|
                0 <= i < s.len() && s[i] is Some && !t.contains(i) && 0 <= j < t.len() implies score_or_zero(
                #[trigger] s[i],
            ) <= score_or_zero(s[#[trigger] t[j]]) by {
                assert(t[0] == b);
                assert(i != b);
                assert(u[i] == s[i]);
                if !tu.contains(i) {
                } else {
                    let w = choose|w: int| 0 <= w < tu.len() && tu[w] == i;
                    assert(t[w + 1] == i);
                }
                if j > 0 {
                    assert(t[j] == tu[j - 1]);
                    assert(u[tu[j - 1]] is Some);
                    assert(s[tu[j - 1]] == u[tu[j - 1]]);
                    assert(score_or_zero(u[i]) <= score_or_zero(u[tu[j - 1]]));
                }
            }
            if t.len() < k {
                assert forall|i: int| 0 <= i < s.len() && (#[trigger] s[i]) is Some implies t.contains(
                    i,
                ) by {
                    if i == b {
                        assert(t[0] == i);
                    } else {
                        assert(u[i] == s[i]);
                        assert(tu.contains(i));
                        let w = choose|w: int| 0 <= w < tu.len() && tu[w] == i;
                        assert(t[w + 1] == i);
                    }
                }
            }
        }
    }
}

/// Scores of the top `k` segments, in rank order.
pub open spec fn ranked_scores(s: Seq<Option<u64>>, k: nat) -> Seq<int> {
    top_k(s, k).map_values(|i: int| score_or_zero(s[i]))
}

/// Whether the top-`k` scores have a positive sum, so that shares are defined.
pub open spec fn shares_defined(s: Seq<Option<u64>>, k: nat) -> bool {
    sum_int(ranked_scores(s, k)) > 0
}

/// Scaled probability of the `j`-th ranked segment; `0` when the shares are
/// undefined.
pub open spec fn ranked_share(s: Seq<Option<u64>>, k: nat, j: int) -> int {
    if shares_defined(s, k) {
        scaled(ranked_scores(s, k)[j], sum_int(ranked_scores(s, k)))
    } else {
        0
    }
}

/// Sum of the scaled probabilities of the ranked segments.
pub open spec fn total_share(s: Seq<Option<u64>>, k: nat) -> int {
    sum_int(Seq::new(top_k(s, k).len(), |j: int| ranked_share(s, k, j)))
}

/// One ranked entry of a report.
pub struct Match {
    pub title: String,
    pub score: u64,
    /// Score divided by the sum of the ranked scores, in `SCALE` units.
    pub scaled_prob: u64,
}

/// The finalized outcome of a matching run.
pub struct MatchReport {
    pub matches: Vec<Match>,
    /// False when the ranked scores sum to zero (including an empty ranking):
    /// every `scaled_prob` is then `0` and the threshold is not passed.
    pub probabilities_defined: bool,
    /// Sum of the `scaled_prob` values, in `SCALE` units.
    pub total_probability: u64,
    pub threshold_passed: bool,
    pub elapsed_millis: u128,
}

/// What a report built from `scores` holds.
pub open spec fn is_report_of(
    r: MatchReport,
    db: ReferenceDatabase,
    scores: Seq<Option<u64>>,
    cfg: MatchConfig,
    bytes_observed: u64,
) -> bool {
    let k = cfg.n_results as nat;
    let ranked = top_k(scores, k);
    &&& r.matches@.len() == ranked.len()
    &&& forall|j: int|
        0 <= j < ranked.len() ==> {
            &&& (#[trigger] r.matches@[j]).title@ == db.segments@[ranked[j]].title@
            &&& r.matches@[j].score == ranked_scores(scores, k)[j]
            &&& r.matches@[j].scaled_prob == ranked_share(scores, k, j)
        }
    &&& r.probabilities_defined == shares_defined(scores, k)
    &&& r.total_probability == total_share(scores, k)
    &&& r.threshold_passed == (shares_defined(scores, k) && total_share(scores, k)
        >= cfg.threshold)
    &&& r.elapsed_millis == (bytes_observed as int * 1000) / cfg.bytes_per_second()
}

/// Ranks the accumulated scores, keeps the top `cfg.n_results`, normalizes
/// them by their sum, estimates the elapsed stream time from the byte count
/// and applies the decision threshold.
pub fn finalize_report(
    db: &ReferenceDatabase,
    acc: &ScoreAccumulator,
    cfg: &MatchConfig,
    bytes_observed: u64,
) -> (r: MatchReport)
    requires
        acc@.len() == db.segments@.len(),
        cfg.wf(),
    ensures
        is_report_of(r, *db, acc@, *cfg, bytes_observed),
{
    let ghost k = cfg.n_results as nat;
    let ranked = rank_top(acc, cfg.n_results);
    let ghost top = top_k(acc@, k);
    proof {
        lemma_top_k_range(acc@, k);
        assert(ranked@.len() == top.len());
        assert forall|j: int| 0 <= j < ranked@.len() implies ranked@[j] as int == #[trigger] top[j] by {
            assert(ranked@.map_values(|i: usize| i as int)[j] == top[j]);
        }
    }
    let mut scores: Vec<u64> = Vec::new();
    let mut j: usize = 0;
    while j < ranked.len()
        invariant
            j <= ranked@.len(),
            ranked@.len() == top.len(),
            top == top_k(acc@, k),
            forall|i: int| 0 <= i < ranked@.len() ==> ranked@[i] as int == #[trigger] top[i],
            forall|i: int| 0 <= i < top.len() ==> 0 <= #[trigger] top[i] < acc@.len(),
            u64s(scores@) == ranked_scores(acc@, k).take(j as int),
        decreases ranked@.len() - j,
    {
        assert(ranked@[j as int] as int == top[j as int]);
        let v = acc.score(ranked[j]);
        assert(ranked_scores(acc@, k)[j as int] == v as int);
        let ghost prev = u64s(scores@);
        scores.push(v);
        assert(u64s(scores@) =~= prev.push(v as int));
        assert(prev.push(v as int) =~= ranked_scores(acc@, k).take(j + 1));
        j = j + 1;
    }
    assert(u64s(scores@) =~= ranked_scores(acc@, k));
    let probs = scale_results(scores.as_slice());
    let defined = probs.is_some();
    let ghost shares = Seq::new(top.len(), |i: int| ranked_share(acc@, k, i));
    proof {
        let rs = ranked_scores(acc@, k);
        assert forall|i: int| 0 <= i < rs.len() implies 0 <= #[trigger] rs[i] <= u64::MAX by {
            assert(rs[i] == u64s(scores@)[i]);
        }
        lemma_sum_nonneg_bound(rs, u64::MAX as int);
        if probs is Some {
            let ps = probs->0;
            assert forall|i: int| 0 <= i < shares.len() implies #[trigger] u64s(ps@)[i]
                == shares[i] by {
                assert(scores@[i] as int == rs[i]);
            }
            assert(u64s(ps@) =~= shares);
            assert forall|i: int| 0 <= i < shares.len() implies 0 <= #[trigger] shares[i]
                <= u64::MAX by {
                assert(shares[i] == u64s(ps@)[i]);
            }
            lemma_sum_nonneg_bound(shares, u64::MAX as int);
        } else {
            assert forall|i: int| 0 <= i < shares.len() implies 0 <= #[trigger] shares[i]
                <= 0 by {}
            lemma_sum_nonneg_bound(shares, 0);
        }
    }
    let mut matches: Vec<Match> = Vec::new();
    let mut total: u64 = 0;
    let mut i: usize = 0;
    while i < ranked.len()
        invariant
            i <= ranked@.len(),
            ranked@.len() == top.len(),
            top == top_k(acc@, k),
            forall|t: int| 0 <= t < ranked@.len() ==> ranked@[t] as int == #[trigger] top[t],
            forall|t: int| 0 <= t < top.len() ==> 0 <= #[trigger] top[t] < acc@.len(),
            acc@.len() == db.segments@.len(),
            u64s(scores@) == ranked_scores(acc@, k),
            defined == shares_defined(acc@, k),
            shares == Seq::new(top.len(), |t: int| ranked_share(acc@, k, t)),
            probs matches Some(ps) ==> u64s(ps@) == shares,
            probs is None <==> !defined,
            sum_int(shares) <= SCALE,
            forall|t: int| 0 <= t < shares.len() ==> 0 <= #[trigger] shares[t],
            total == sum_int(shares.take(i as int)),
            matches@.len() == i,
            forall|t: int|
                0 <= t < i ==> {
                    &&& (#[trigger] matches@[t]).title@ == db.segments@[top[t]].title@
                    &&& matches@[t].score == ranked_scores(acc@, k)[t]
                    &&& matches@[t].scaled_prob == ranked_share(acc@, k, t)
                },
        decreases ranked@.len() - i,
    {
        let idx = ranked[i];
        assert(idx as int == top[i as int]);
        let title = db.segments[idx].title.clone();
        let score = scores[i];
        assert(u64s(scores@)[i as int] == score as int);
        let p: u64 = match &probs {
            Some(ps) => {
                assert(u64s(ps@)[i as int] == ps@[i as int] as int);
                ps[i]
            },
            None => 0,
        };
        proof {
            assert(shares.take(i + 1).drop_last() =~= shares.take(i as int));
            lemma_sum_prefix_mono(shares, i + 1);
        }
        total = total + p;
        matches.push(Match { title, score, scaled_prob: p });
        i = i + 1;
    }
    assert(shares.take(ranked@.len() as int) =~= shares);
    let elapsed = elapsed_millis(bytes_observed, cfg);
    let passed = defined && total >= cfg.threshold;
    MatchReport {
        matches,
        probabilities_defined: defined,
        total_probability: total,
        threshold_passed: passed,
        elapsed_millis: elapsed,
    }
}


/// The part of a path after its last `/` (the whole text when it has none).
pub open spec fn last_component(s: Seq<char>) -> Seq<char>
    decreases s.len(),
{
    if s.len() == 0 {
        s
    } else if s.last() == '/' {
        seq![]
    } else {
        last_component(s.drop_last()).push(s.last())
    }
}

/// A ranked entry reduced to the file name of its title and its score.
pub struct MatchLessInfo {
    pub title: String,
    pub score: u64,
}

impl MatchLessInfo {
    /// Keeps the score and the last path component of the title.
    pub fn from(value: &Match) -> (r: MatchLessInfo)
        ensures
            r.title@ == last_component(value.title@),
            r.score == value.score,
    {
        let s = value.title.as_str();
        let n = s.unicode_len();
        let mut j: usize = n;
        assert(s@.take(n as int) =~= s@);
        assert(s@.subrange(n as int, n as int) =~= seq![]);
        assert(last_component(s@) + seq![] =~= last_component(s@));
        while j > 0 && s.get_char(j - 1) != '/'
            invariant
                j <= n,
                n == s@.len(),
                s@ == value.title@,
                last_component(s@) == last_component(s@.take(j as int)) + s@.subrange(
                    j as int,
                    n as int,
                ),
            decreases j,
        {
            let ghost t = s@.take(j as int);
            assert(t.drop_last() =~= s@.take(j - 1));
            assert(t.last() == s@[j - 1]);
            assert(s@.subrange(j - 1, n as int) =~= seq![s@[j - 1]] + s@.subrange(
                j as int,
                n as int,
            ));
            assert(last_component(t.drop_last()).push(t.last()) + s@.subrange(j as int, n as int)
                =~= last_component(t.drop_last()) + s@.subrange(j - 1, n as int));
            j = j - 1;
        }
        proof {
            if j > 0 {
                assert(s@.take(j as int).last() == '/');
            }
            assert(last_component(s@.take(j as int)) =~= seq![]);
            assert(seq![] + s@.subrange(j as int, n as int) =~= s@.subrange(j as int, n as int));
        }
        let tail = s.substring_char(j, n);
        MatchLessInfo { title: tail.to_owned(), score: value.score }
    }
}

} // verus!
