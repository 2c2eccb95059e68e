use vstd::prelude::*;

verus! {

/// Fixed-point unit: a distance, a weight, a score or a probability of `1.0`
/// is represented by this many units.
pub const SCALE: u64 = 1_000_000;

/// Largest fingerprint dimensionality the arithmetic is sized for.
pub const MAX_DIMENSION: usize = 4096;

/// Default match-distance cutoff (0.95 in fixed point).
pub const DEFAULT_MAX_DISTANCE: u64 = 950_000;

/// Default number of ranked results.
pub const N_RESULTS: usize = 2;

/// Default audio sample rate in Hz.
pub const SAMPLE_RATE: u32 = 44100;

/// Default channel count.
pub const AUDIO_CHANNELS: u32 = 2;

/// Default bytes per sample (signed 16-bit little endian).
pub const SIZE_OF_SAMPLE: u32 = 2;

/// Default relay chunk size in bytes.
pub const CHUNKING_NUMBER: usize = 4410;

/// Default decision threshold (0.99 in fixed point).
pub const AUDIO_THRESHOLD: u64 = 990_000;

/// Tunable constants of the matching core, passed in at construction.
#[derive(Clone, Copy, Debug, PartialEq, Eq)]
pub struct MatchConfig {
    /// Cutoff for the clipped-linear frame weight, in `SCALE` units.
    pub max_distance: u64,
    /// How many top segments the report keeps.
    pub n_results: usize,
    pub sample_rate: u32,
    pub channels: u32,
    pub bytes_per_sample: u32,
    /// Size in bytes of each chunk the fan-out relay forwards.
    pub chunk_size: usize,
    /// Threshold on the summed scaled probabilities, in `SCALE` units.
    pub threshold: u64,
}

impl MatchConfig {
    /// The audio format values are positive and the relay chunk is non-empty.
    pub open spec fn wf(&self) -> bool {
        &&& self.sample_rate > 0
        &&& self.channels > 0
        &&& self.bytes_per_sample > 0
        &&& self.chunk_size > 0
    }

    /// Bytes of decoded audio per second of stream time.
    pub open spec fn bytes_per_second(&self) -> int {
        self.sample_rate as int * self.channels as int * self.bytes_per_sample as int
    }

    /// The configuration with the default constants.
    pub fn standard() -> (r: MatchConfig)
        ensures
            r.wf(),
            r.max_distance == DEFAULT_MAX_DISTANCE,
            r.n_results == N_RESULTS,
            r.sample_rate == SAMPLE_RATE,
            r.channels == AUDIO_CHANNELS,
            r.bytes_per_sample == SIZE_OF_SAMPLE,
            r.chunk_size == CHUNKING_NUMBER,
            r.threshold == AUDIO_THRESHOLD,
    {
        MatchConfig {
            max_distance: DEFAULT_MAX_DISTANCE,
            n_results: N_RESULTS,
            sample_rate: SAMPLE_RATE,
            channels: AUDIO_CHANNELS,
            bytes_per_sample: SIZE_OF_SAMPLE,
            chunk_size: CHUNKING_NUMBER,
            threshold: AUDIO_THRESHOLD,
        }
    }
}

} // verus!
