use vstd::prelude::*;

use crate::config::MAX_DIMENSION;

verus! {

/// Settings the reference vectors were generated with.
#[derive(Clone, Copy, Debug, PartialEq, Eq)]
pub struct FingerprintParams {
    pub resample_rate: u32,
    pub fft_size: u32,
    pub fft_overlap: u32,
    /// Dimensionality of every fingerprint vector.
    pub spectrogram_height: u32,
    pub spectrogram_max_frequency: u32,
}

/// One known piece of content and its reference fingerprint vectors.
pub struct Segment {
    pub title: String,
    pub vectors: Vec<Vec<i16>>,
}

/// The immutable table of reference segments.
pub struct ReferenceDatabase {
    pub build_settings: FingerprintParams,
    pub segments: Vec<Segment>,
}

impl Segment {
    pub open spec fn spec_vectors(&self) -> Seq<Seq<i16>> {
        self.vectors@.map_values(|v: Vec<i16>| v@)
    }
}

impl ReferenceDatabase {
    /// The reference vectors, segment by segment.
    pub open spec fn spec_vectors(&self) -> Seq<Seq<Seq<i16>>> {
        self.segments@.map_values(|s: Segment| s.spec_vectors())
    }

    pub open spec fn dimension(&self) -> nat {
        self.build_settings.spectrogram_height as nat
    }

    /// Every reference vector has the database's dimensionality, which the
    /// fixed-width arithmetic can hold.
    pub open spec fn wf(&self) -> bool {
        &&& self.dimension() <= MAX_DIMENSION
        &&& forall|i: int, j: int|
            0 <= i < self.segments@.len() && 0 <= j < self.segments@[i].vectors@.len()
                ==> #[trigger] self.segments@[i].vectors@[j]@.len() == self.dimension()
    }

    /// Number of segments.
    pub fn len(&self) -> (r: usize)
        ensures
            r == self.segments@.len(),
    {
        self.segments.len()
    }

    /// Title of segment `i`.
    pub fn title(&self, i: usize) -> (r: &String)
        requires
            i < self.segments@.len(),
        ensures
            r@ == self.segments@[i as int].title@,
    {
        &self.segments[i].title
    }
}

} // verus!
