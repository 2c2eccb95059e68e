use vstd::prelude::*;

use crate::accumulator::{accumulate_results, ScoreAccumulator};
use crate::config::MatchConfig;
use crate::database::ReferenceDatabase;
use crate::decision::{finalize_report, is_report_of, MatchReport};
use crate::matcher::{best, best_match};

verus! {

/// Lifecycle of a matching run. The only way out of `Running` is a single
/// cancellation or the end of the stream; `Finalized` is terminal.
#[derive(Clone, Copy, Debug, PartialEq, Eq, Structural)]
pub enum CoordinatorState {
    Running,
    Cancelling,
    Finalized,
}

/// A one-shot cancellation event: once fired it stays fired.
pub struct CancellationSignal {
    fired: bool,
}

impl CancellationSignal {
    pub closed spec fn spec_fired(&self) -> bool {
        self.fired
    }

    /// A signal that has not fired.
    pub fn new() -> (r: CancellationSignal)
        ensures
            !r.spec_fired(),
    {
        CancellationSignal { fired: false }
    }

    /// Fires the signal. Returns whether this call was the one that fired
    /// it; firing again changes nothing.
    pub fn fire(&mut self) -> (first: bool)
        ensures
            final(self).spec_fired(),
            first == !old(self).spec_fired(),
    {
        let first = !self.fired;
        self.fired = true;
        first
    }

    pub fn is_fired(&self) -> (r: bool)
        ensures
            r == self.spec_fired(),
    {
        self.fired
    }
}

/// One consumer's view of a cancellation signal: it is told of the event
/// exactly once, at the first check after the signal fired.
pub struct CancelObserver {
    seen: bool,
}

impl CancelObserver {
    pub closed spec fn spec_seen(&self) -> bool {
        self.seen
    }

    pub fn new() -> (r: CancelObserver)
        ensures
            !r.spec_seen(),
    {
        CancelObserver { seen: false }
    }

    /// Checks the signal; true only on the first check that finds it fired.
    pub fn poll(&mut self, signal: &CancellationSignal) -> (r: bool)
        ensures
            r == (signal.spec_fired() && !old(self).spec_seen()),
            final(self).spec_seen() == (old(self).spec_seen() || signal.spec_fired()),
    {
        if signal.is_fired() && !self.seen {
            self.seen = true;
            true
        } else {
            false
        }
    }
}

/// The frame results of a sequence of fingerprint vectors.
pub open spec fn frame_results(segs: Seq<Seq<Seq<i16>>>, frames: Seq<Seq<i16>>) -> Seq<
    Option<(int, int)>,
> {
    frames.map_values(|f: Seq<i16>| best(segs, f))
}

/// Scores after matching `frames` against `db` from an empty accumulator.
pub open spec fn scores_after(db: ReferenceDatabase, frames: Seq<Seq<i16>>, cutoff: int) -> Seq<
    Option<u64>,
> {
    accumulate_results(
        db.segments@.len(),
        frame_results(db.spec_vectors(), frames),
        cutoff,
    )
}

/// Frames of a stream that are consumed when cancellation is seen once
/// `cancel_after` frames have been processed (`None`: never).
pub open spec fn consumed_prefix(frames: Seq<Seq<i16>>, cancel_after: Option<nat>) -> Seq<
    Seq<i16>,
> {
    match cancel_after {
        Some(k) => if k < frames.len() {
            frames.take(k as int)
        } else {
            frames
        },
        None => frames,
    }
}

pub open spec fn frames_view(frames: Seq<Vec<i16>>) -> Seq<Seq<i16>> {
    frames.map_values(|v: Vec<i16>| v@)
}

/// The matching loop's state: the running scores and where the run is in
/// its lifecycle.
pub struct MatchSession {
    scores: ScoreAccumulator,
    state: CoordinatorState,
    config: MatchConfig,
    consumed: Ghost<Seq<Seq<i16>>>,
}

impl MatchSession {
    pub closed spec fn spec_state(&self) -> CoordinatorState {
        self.state
    }

    pub closed spec fn spec_config(&self) -> MatchConfig {
        self.config
    }

    /// The fingerprint vectors processed so far, in arrival order.
    pub closed spec fn spec_consumed(&self) -> Seq<Seq<i16>> {
        self.consumed@
    }

    pub closed spec fn spec_scores(&self) -> Seq<Option<u64>> {
        self.scores@
    }

    /// The session is tied to `db`: its scores are those of the frames it
    /// consumed.
    pub open spec fn inv(&self, db: ReferenceDatabase) -> bool {
        self.spec_scores() == scores_after(
            db,
            self.spec_consumed(),
            self.spec_config().max_distance as int,
        )
    }

    /// A running session over `db` that has consumed nothing.
    pub fn new(db: &ReferenceDatabase, config: MatchConfig) -> (r: MatchSession)
        ensures
            r.spec_state() == CoordinatorState::Running,
            r.spec_config() == config,
            r.spec_consumed() == Seq::<Seq<i16>>::empty(),
            r.inv(*db),
    {
        let scores = ScoreAccumulator::new(db.len());
        let ghost segs = db.spec_vectors();
        assert(frame_results(segs, Seq::<Seq<i16>>::empty()) =~= seq![]);
        MatchSession {
            scores,
            state: CoordinatorState::Running,
            config,
            consumed: Ghost(Seq::empty()),
        }
    }

    pub fn state(&self) -> (r: CoordinatorState)
        ensures
            r == self.spec_state(),
    {
        self.state
    }

    /// Score of segment `i` so far, zero before its first win.
    pub fn score(&self, i: usize) -> (r: u64)
        requires
            i < self.spec_scores().len(),
        ensures
            r == crate::accumulator::score_or_zero(self.spec_scores()[i as int]),
    {
        self.scores.score(i)
    }

    /// Matches one fingerprint vector and credits the winning segment.
    pub fn process_frame(&mut self, db: &ReferenceDatabase, frame: &[i16])
        requires
            old(self).spec_state() == CoordinatorState::Running,
            old(self).inv(*db),
            db.wf(),
            frame@.len() == db.dimension(),
        ensures
            final(self).spec_state() == CoordinatorState::Running,
            final(self).spec_config() == old(self).spec_config(),
            final(self).spec_consumed() == old(self).spec_consumed().push(frame@),
            final(self).inv(*db),
    {
        let m = best_match(db, frame);
        self.scores.record(m, self.config.max_distance);
        let ghost segs = db.spec_vectors();
        let ghost prev = self.consumed@;
        self.consumed = Ghost(prev.push(frame@));
        proof {
            let rs = frame_results(segs, self.consumed@);
            assert(rs.drop_last() =~= frame_results(segs, prev));
            assert(rs.last() == best(segs, frame@));
        }
    }

    /// Processes one frame, then reacts to the cancellation check made after
    /// it: a seen cancellation moves the run to `Cancelling`. Returns whether
    /// the loop should pull another frame.
    pub fn on_frame(&mut self, db: &ReferenceDatabase, frame: &[i16], cancelled: bool) -> (keep_going: bool)
        requires
            old(self).spec_state() == CoordinatorState::Running,
            old(self).inv(*db),
            db.wf(),
            frame@.len() == db.dimension(),
        ensures
            keep_going == !cancelled,
            final(self).spec_state() == if cancelled {
                CoordinatorState::Cancelling
            } else {
                CoordinatorState::Running
            },
            final(self).spec_config() == old(self).spec_config(),
            final(self).spec_consumed() == old(self).spec_consumed().push(frame@),
            final(self).inv(*db),
    {
        self.process_frame(db, frame);
        if cancelled {
            self.cancel();
        }
        !cancelled
    }

    /// Moves a running session to `Cancelling`; in any other state it does
    /// nothing, so a second cancellation is harmless.
    pub fn cancel(&mut self)
        ensures
            final(self).spec_state() == if old(self).spec_state() == CoordinatorState::Running {
                CoordinatorState::Cancelling
            } else {
                old(self).spec_state()
            },
            final(self).spec_config() == old(self).spec_config(),
            final(self).spec_consumed() == old(self).spec_consumed(),
            final(self).spec_scores() == old(self).spec_scores(),
    {
        if self.state == CoordinatorState::Running {
            self.state = CoordinatorState::Cancelling;
        }
    }

    /// Produces the report from the scores so far and moves the session to
    /// `Finalized`.
    pub fn finish(&mut self, db: &ReferenceDatabase, bytes_observed: u64) -> (r: MatchReport)
        requires
            old(self).spec_state() != CoordinatorState::Finalized,
            old(self).inv(*db),
            old(self).spec_config().wf(),
        ensures
            final(self).spec_state() == CoordinatorState::Finalized,
            final(self).spec_consumed() == old(self).spec_consumed(),
            final(self).spec_config() == old(self).spec_config(),
            final(self).inv(*db),
            is_report_of(
                r,
                *db,
                scores_after(*db, old(self).spec_consumed(), old(self).spec_config().max_distance as int),
                old(self).spec_config(),
                bytes_observed,
            ),
    {
        proof {
            crate::accumulator::lemma_accumulate_len(
                db.segments@.len(),
                frame_results(db.spec_vectors(), self.consumed@),
                self.config.max_distance as int,
            );
        }
        let r = finalize_report(db, &self.scores, &self.config, bytes_observed);
        self.state = CoordinatorState::Finalized;
        r
    }
}

/// Runs the matcher over a finite stream of fingerprint vectors. When
/// `cancel_after` is `Some(k)`, cancellation is seen once `k` frames have
/// been processed and no further frame is pulled.
pub fn match_stream(
    db: &ReferenceDatabase,
    frames: &Vec<Vec<i16>>,
    cancel_after: Option<usize>,
    cfg: MatchConfig,
    bytes_observed: u64,
) -> (r: MatchReport)
    requires
        db.wf(),
        cfg.wf(),
        forall|i: int| 0 <= i < frames@.len() ==> (#[trigger] frames@[i])@.len() == db.dimension(),
    ensures
        is_report_of(
            r,
            *db,
            scores_after(
                *db,
                consumed_prefix(
                    frames_view(frames@),
                    match cancel_after {
                        Some(k) => Some(k as nat),
                        None => None,
                    },
                ),
                cfg.max_distance as int,
            ),
            cfg,
            bytes_observed,
        ),
{
    let ghost fv = frames_view(frames@);
    let mut session = MatchSession::new(db, cfg);
    let mut i: usize = 0;
    let mut stop: bool = false;
    while i < frames.len() && !stop
        invariant
            i <= frames@.len(),
            fv == frames_view(frames@),
            db.wf(),
            cfg.wf(),
            forall|t: int| 0 <= t < frames@.len() ==> (#[trigger] frames@[t])@.len() == db.dimension(),
            session.inv(*db),
            session.spec_config() == cfg,
            session.spec_consumed() == fv.take(i as int),
            stop ==> cancel_after == Some(i),
            !stop ==> session.spec_state() == CoordinatorState::Running,
            stop ==> session.spec_state() == CoordinatorState::Cancelling,
            cancel_after matches Some(k) ==> i <= k,
        decreases frames@.len() - i + if stop {
            0int
        } else {
            1int
        },
    {
        if cancel_after == Some(i) {
            session.cancel();
            stop = true;
        } else {
            session.process_frame(db, frames[i].as_slice());
            assert(fv.take(i + 1) =~= fv.take(i as int).push(frames@[i as int]@));
            i = i + 1;
        }
    }
    assert(i == frames@.len() ==> fv.take(i as int) =~= fv);
    session.finish(db, bytes_observed)
}


/// What a report says: each ranked title with its score and scaled
/// probability, the definedness flag, the total, the decision and the time.
pub open spec fn report_view(r: MatchReport) -> (Seq<(Seq<char>, u64, u64)>, bool, u64, bool, u128) {
    (
        r.matches@.map_values(|m: crate::decision::Match| (m.title@, m.score, m.scaled_prob)),
        r.probabilities_defined,
        r.total_probability,
        r.threshold_passed,
        r.elapsed_millis,
    )
}

/// Re-running the matcher over the same frames against the same database
/// gives identical ranked results.
pub proof fn lemma_rerun_identical(
    r1: MatchReport,
    r2: MatchReport,
    db: ReferenceDatabase,
    frames: Seq<Seq<i16>>,
    cfg: MatchConfig,
    bytes_observed: u64,
)
    requires
        is_report_of(r1, db, scores_after(db, frames, cfg.max_distance as int), cfg, bytes_observed),
        is_report_of(r2, db, scores_after(db, frames, cfg.max_distance as int), cfg, bytes_observed),
    ensures
        report_view(r1) == report_view(r2),
{
    let v1 = r1.matches@.map_values(|m: crate::decision::Match| (m.title@, m.score, m.scaled_prob));
    let v2 = r2.matches@.map_values(|m: crate::decision::Match| (m.title@, m.score, m.scaled_prob));
    assert(v1 =~= v2);
}

/// Cancelling once `k` frames have been processed consumes exactly the
/// first `k` frames: the scores, and so the report, equal those of the
/// stream cut after `k` frames, whatever frames would have followed.
pub proof fn lemma_cancel_is_truncation(
    db: ReferenceDatabase,
    frames: Seq<Seq<i16>>,
    other: Seq<Seq<i16>>,
    k: nat,
    cutoff: int,
)
    requires
        k <= frames.len(),
        k <= other.len(),
        frames.take(k as int) == other.take(k as int),
    ensures
        consumed_prefix(frames, Some(k)) == consumed_prefix(frames.take(k as int), None),
        scores_after(db, consumed_prefix(frames, Some(k)), cutoff) == scores_after(
            db,
            frames.take(k as int),
            cutoff,
        ),
        scores_after(db, consumed_prefix(frames, Some(k)), cutoff) == scores_after(
            db,
            consumed_prefix(other, Some(k)),
            cutoff,
        ),
{
    if k == frames.len() {
        assert(frames.take(k as int) =~= frames);
    }
    if k == other.len() {
        assert(other.take(k as int) =~= other);
    }
}

} // verus!
