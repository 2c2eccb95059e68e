use vstd::prelude::*;

use crate::matcher::opt_pair;

verus! {

/// Frame weight `max(cutoff - d, 0)`.
pub open spec fn clipped_weight_spec(cutoff: int, d: int) -> int {
    if cutoff > d {
        cutoff - d
    } else {
        0
    }
}

/// Addition that stops at `u64::MAX`.
pub open spec fn sat_add(a: int, b: int) -> int {
    if a + b > u64::MAX {
        u64::MAX as int
    } else {
        a + b
    }
}

/// Score of an entry, zero where the segment has not won a frame yet.
pub open spec fn score_or_zero(e: Option<u64>) -> int {
    match e {
        Some(v) => v as int,
        None => 0,
    }
}

/// Scores after one frame's result: only the winner gains, by the clipped
/// weight of its distance.
pub open spec fn record_spec(scores: Seq<Option<u64>>, m: Option<(int, int)>, cutoff: int) -> Seq<
    Option<u64>,
> {
    match m {
        None => scores,
        Some(p) => if 0 <= p.0 < scores.len() {
            scores.update(
                p.0,
                Some(sat_add(score_or_zero(scores[p.0]), clipped_weight_spec(cutoff, p.1)) as u64),
            )
        } else {
            scores
        },
    }
}

/// Scores of `n` segments after a sequence of frame results, from empty.
pub open spec fn accumulate_results(n: nat, results: Seq<Option<(int, int)>>, cutoff: int) -> Seq<
    Option<u64>,
>
    decreases results.len(),
{
    if results.len() == 0 {
        Seq::new(n, |i: int| None)
    } else {
        record_spec(
            accumulate_results(n, results.drop_last(), cutoff),
            results.last(),
            cutoff,
        )
    }
}

/// Running per-segment confidence scores; an entry is `None` until its
/// segment first wins a frame.
pub struct ScoreAccumulator {
    scores: Vec<Option<u64>>,
}

impl View for ScoreAccumulator {
    type V = Seq<Option<u64>>;

    closed spec fn view(&self) -> Seq<Option<u64>> {
        self.scores@
    }
}

/// Frame weight `max(cutoff - d, 0)`.
pub fn clipped_weight(cutoff: u64, d: u64) -> (r: u64)
    ensures
        r == clipped_weight_spec(cutoff as int, d as int),
{
    if cutoff > d {
        cutoff - d
    } else {
        0
    }
}

impl ScoreAccumulator {
    /// An accumulator for `n_segments` segments, none of which has a score.
    pub fn new(n_segments: usize) -> (r: ScoreAccumulator)
        ensures
            r@ == Seq::new(n_segments as nat, |i: int| None::<u64>),
    {
        let mut scores: Vec<Option<u64>> = Vec::new();
        let mut i: usize = 0;
        while i < n_segments
            invariant
                i <= n_segments,
                scores@ == Seq::new(i as nat, |k: int| None::<u64>),
            decreases n_segments - i,
        {
            scores.push(None);
            i = i + 1;
        }
        ScoreAccumulator { scores }
    }

    /// Number of segments tracked.
    pub fn len(&self) -> (r: usize)
        ensures
            r == self@.len(),
    {
        self.scores.len()
    }

    /// Entry of segment `i`.
    pub fn entry(&self, i: usize) -> (r: Option<u64>)
        requires
            i < self@.len(),
        ensures
            r == self@[i as int],
    {
        self.scores[i]
    }

    /// Score of segment `i`, zero before its first win.
    pub fn score(&self, i: usize) -> (r: u64)
        requires
            i < self@.len(),
        ensures
            r == score_or_zero(self@[i as int]),
    {
        match self.scores[i] {
            Some(v) => v,
            None => 0,
        }
    }

    /// Credits a frame's winner with `max(cutoff - d, 0)`, saturating at
    /// `u64::MAX`; a frame without a winner changes nothing.
    pub fn record(&mut self, m: Option<(usize, u64)>, cutoff: u64)
        ensures
            final(self)@ == record_spec(old(self)@, opt_pair(m), cutoff as int),
    {
        if let Some((i, d)) = m {
            if i < self.scores.len() {
                let w = clipped_weight(cutoff, d);
                let old_score = self.score(i);
                let new_score = old_score.saturating_add(w);
                self.scores.set(i, Some(new_score));
            }
        }
    }
}

proof fn lemma_record_monotone(scores: Seq<Option<u64>>, m: Option<(int, int)>, cutoff: int)
    ensures
        record_spec(scores, m, cutoff).len() == scores.len(),
        forall|i: int|
            0 <= i < scores.len() ==> score_or_zero(scores[i]) <= score_or_zero(
                #[trigger] record_spec(scores, m, cutoff)[i],
            ),
{
}

pub(crate) proof fn lemma_accumulate_len(n: nat, results: Seq<Option<(int, int)>>, cutoff: int)
    ensures
        accumulate_results(n, results, cutoff).len() == n,
    decreases results.len(),
{
    if results.len() > 0 {
        lemma_accumulate_len(n, results.drop_last(), cutoff);
    }
}

/// Every score is non-negative and never decreases as more frame results
/// are accumulated.
pub proof fn lemma_scores_monotone(
    n: nat,
    results: Seq<Option<(int, int)>>,
    cutoff: int,
    k1: nat,
    k2: nat,
    i: int,
)
    requires
        k1 <= k2 <= results.len(),
        0 <= i < n,
    ensures
        0 <= score_or_zero(accumulate_results(n, results.take(k1 as int), cutoff)[i]),
        score_or_zero(accumulate_results(n, results.take(k1 as int), cutoff)[i])
            <= score_or_zero(accumulate_results(n, results.take(k2 as int), cutoff)[i]),
    decreases k2 - k1,
{
    lemma_accumulate_len(n, results.take(k1 as int), cutoff);
    if k1 < k2 {
        lemma_scores_monotone(n, results, cutoff, k1, (k2 - 1) as nat, i);
        let prefix = results.take(k2 as int);
        assert(prefix.drop_last() =~= results.take(k2 - 1));
        lemma_accumulate_len(n, prefix.drop_last(), cutoff);
        lemma_record_monotone(
            accumulate_results(n, prefix.drop_last(), cutoff),
            prefix.last(),
            cutoff,
        );
    }
}

} // verus!
