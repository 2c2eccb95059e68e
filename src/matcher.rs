use vstd::prelude::*;

use crate::database::{ReferenceDatabase, Segment};
use crate::similarity::{degenerate, distance, distance_cosine, norm_sq, opt_int};

verus! {

/// Smallest defined distance from `f` to the first `n` vectors of `vs`.
pub open spec fn closest_upto(vs: Seq<Seq<i16>>, f: Seq<i16>, n: nat) -> Option<int>
    decreases n,
{
    if n == 0 {
        None
    } else {
        let prev = closest_upto(vs, f, (n - 1) as nat);
        match distance(f, vs[n - 1]) {
            None => prev,
            Some(d) => match prev {
                None => Some(d),
                Some(e) => Some(if d < e { d } else { e }),
            },
        }
    }
}

/// Distance from `f` to a segment: the minimum over its reference vectors,
/// `None` when every pair is degenerate.
pub open spec fn closest(vs: Seq<Seq<i16>>, f: Seq<i16>) -> Option<int> {
    closest_upto(vs, f, vs.len())
}

/// Winner among the first `n` segments: the first one at the smallest
/// defined distance, with that distance.
pub open spec fn best_upto(segs: Seq<Seq<Seq<i16>>>, f: Seq<i16>, n: nat) -> Option<(int, int)>
    decreases n,
{
    if n == 0 {
        None
    } else {
        let prev = best_upto(segs, f, (n - 1) as nat);
        match closest(segs[n - 1], f) {
            None => prev,
            Some(d) => match prev {
                None => Some(((n - 1) as int, d)),
                Some(p) => if d < p.1 {
                    Some(((n - 1) as int, d))
                } else {
                    prev
                },
            },
        }
    }
}

/// The frame's winning segment and its distance, `None` when no pair is
/// defined.
pub open spec fn best(segs: Seq<Seq<Seq<i16>>>, f: Seq<i16>) -> Option<(int, int)> {
    best_upto(segs, f, segs.len())
}

pub open spec fn opt_pair(o: Option<(usize, u64)>) -> Option<(int, int)> {
    match o {
        Some(p) => Some((p.0 as int, p.1 as int)),
        None => None,
    }
}

/// Smallest distance from `frame` to any of the segment's reference vectors.
pub fn closest_distance(segment: &Segment, frame: &[i16], dim: usize) -> (r: Option<u64>)
    requires
        frame@.len() == dim,
        dim <= crate::config::MAX_DIMENSION,
        forall|j: int|
            0 <= j < segment.vectors@.len() ==> #[trigger] segment.vectors@[j]@.len() == dim,
    ensures
        opt_int(r) == closest(segment.spec_vectors(), frame@),
{
    let ghost vs = segment.spec_vectors();
    let mut acc: Option<u64> = None;
    let mut j: usize = 0;
    while j < segment.vectors.len()
        invariant
            j <= segment.vectors@.len(),
            vs == segment.spec_vectors(),
            frame@.len() == dim,
            dim <= crate::config::MAX_DIMENSION,
            forall|k: int|
                0 <= k < segment.vectors@.len() ==> #[trigger] segment.vectors@[k]@.len() == dim,
            opt_int(acc) == closest_upto(vs, frame@, j as nat),
        decreases segment.vectors@.len() - j,
    {
        let d = distance_cosine(frame, segment.vectors[j].as_slice());
        assert(vs[j as int] == segment.vectors@[j as int]@);
        match d {
            None => {},
            Some(dv) => {
                match acc {
                    None => {
                        acc = Some(dv);
                    },
                    Some(e) => {
                        if dv < e {
                            acc = Some(dv);
                        }
                    },
                }
            },
        }
        j = j + 1;
    }
    acc
}

/// Scores one fingerprint vector against every segment and returns the
/// winner (the first segment at the smallest distance) with its distance;
/// `None` when every pair is degenerate.
pub fn best_match(db: &ReferenceDatabase, frame: &[i16]) -> (r: Option<(usize, u64)>)
    requires
        db.wf(),
        frame@.len() == db.dimension(),
    ensures
        opt_pair(r) == best(db.spec_vectors(), frame@),
{
    let ghost segs = db.spec_vectors();
    let dim = db.build_settings.spectrogram_height as usize;
    let mut acc: Option<(usize, u64)> = None;
    let mut i: usize = 0;
    while i < db.segments.len()
        invariant
            i <= db.segments@.len(),
            segs == db.spec_vectors(),
            db.wf(),
            dim == db.dimension(),
            frame@.len() == dim,
            opt_pair(acc) == best_upto(segs, frame@, i as nat),
        decreases db.segments@.len() - i,
    {
        let segment = &db.segments[i];
        assert forall|j: int|
            0 <= j < segment.vectors@.len() implies #[trigger] segment.vectors@[j]@.len()
            == dim by {
            assert(db.segments@[i as int].vectors@[j]@.len() == db.dimension());
        }
        let c = closest_distance(segment, frame, dim);
        assert(segs[i as int] == segment.spec_vectors());
        match c {
            None => {},
            Some(d) => {
                match acc {
                    None => {
                        acc = Some((i, d));
                    },
                    Some(p) => {
                        if d < p.1 {
                            acc = Some((i, d));
                        }
                    },
                }
            },
        }
        i = i + 1;
    }
    acc
}


proof fn lemma_closest_witness(vs: Seq<Seq<i16>>, f: Seq<i16>, n: nat)
    requires
        n <= vs.len(),
    ensures
        closest_upto(vs, f, n) matches Some(d) ==> exists|j: int|
            0 <= j < n && #[trigger] distance(f, vs[j]) == Some(d),
        closest_upto(vs, f, n) is None ==> forall|j: int|
            0 <= j < n ==> #[trigger] distance(f, vs[j]) is None,
    decreases n,
{
    if n > 0 {
        lemma_closest_witness(vs, f, (n - 1) as nat);
        if let Some(d) = closest_upto(vs, f, n) {
            if distance(f, vs[n - 1]) == Some(d) {
                assert(distance(f, vs[(n - 1) as int]) == Some(d));
            } else {
                let j = choose|j: int| 0 <= j < n - 1 && #[trigger] distance(f, vs[j]) == Some(d);
                assert(distance(f, vs[j]) == Some(d));
            }
        }
    }
}

proof fn lemma_best_facts(segs: Seq<Seq<Seq<i16>>>, f: Seq<i16>, n: nat)
    requires
        n <= segs.len(),
    ensures
        best_upto(segs, f, n) matches Some(p) ==> {
            &&& 0 <= p.0 < n
            &&& closest(segs[p.0], f) == Some(p.1)
            &&& forall|k: int|
                0 <= k < n && (#[trigger] closest(segs[k], f)) is Some ==> p.1 <= closest(
                    segs[k],
                    f,
                )->0
        },
        best_upto(segs, f, n) is None ==> forall|k: int|
            0 <= k < n ==> (#[trigger] closest(segs[k], f)) is None,
    decreases n,
{
    if n > 0 {
        lemma_best_facts(segs, f, (n - 1) as nat);
    }
}

/// A winner is never chosen through a degenerate pair: it is the segment at
/// the smallest defined distance, attained by a reference vector with nonzero
/// norm against a frame with nonzero norm. A zero-norm frame has no winner.
pub proof fn lemma_winner_not_degenerate(segs: Seq<Seq<Seq<i16>>>, f: Seq<i16>)
    ensures
        best(segs, f) matches Some(p) ==> {
            &&& 0 <= p.0 < segs.len()
            &&& exists|j: int|
                0 <= j < segs[p.0].len() && !degenerate(f, #[trigger] segs[p.0][j])
                    && distance(f, segs[p.0][j]) == Some(p.1)
            &&& forall|k: int|
                0 <= k < segs.len() && (#[trigger] closest(segs[k], f)) is Some ==> p.1
                    <= closest(segs[k], f)->0
        },
        norm_sq(f) == 0 ==> best(segs, f) is None,
{
    lemma_best_facts(segs, f, segs.len());
    if let Some(p) = best(segs, f) {
        lemma_closest_witness(segs[p.0], f, segs[p.0].len());
        let j = choose|j: int|
            0 <= j < segs[p.0].len() && #[trigger] distance(f, segs[p.0][j]) == Some(p.1);
        assert(!degenerate(f, segs[p.0][j]));
    }
    if norm_sq(f) == 0 {
        assert forall|k: int| 0 <= k < segs.len() implies (#[trigger] closest(segs[k], f)) is None by {
            lemma_closest_witness(segs[k], f, segs[k].len());
            if let Some(d) = closest(segs[k], f) {
                let j = choose|j: int|
                    0 <= j < segs[k].len() && #[trigger] distance(f, segs[k][j]) == Some(d);
                assert(degenerate(f, segs[k][j]));
            }
        }
        lemma_best_none(segs, f, segs.len());
    }
}

proof fn lemma_best_none(segs: Seq<Seq<Seq<i16>>>, f: Seq<i16>, n: nat)
    requires
        n <= segs.len(),
        forall|k: int| 0 <= k < segs.len() ==> (#[trigger] closest(segs[k], f)) is None,
    ensures
        best_upto(segs, f, n) is None,
    decreases n,
{
    if n > 0 {
        lemma_best_none(segs, f, (n - 1) as nat);
        assert(closest(segs[n - 1], f) is None);
    }
}

} // verus!
