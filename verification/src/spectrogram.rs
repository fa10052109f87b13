//! The time-frequency grid that peaks are extracted from.
//!
//! The forward transform itself runs outside the verified core (it is floating
//! point work); the core receives one magnitude vector per time frame, each
//! magnitude encoded as an order-preserving unsigned integer, and keeps only
//! the non-redundant half of each vector.
use vstd::prelude::*;

use crate::error::FingerprintError;

verus! {

/// Framing parameters of the analysis. Recognition must use the same
/// configuration that was used at analysis time: frequency and time bins are
/// meaningful only relative to these values.
#[derive(Debug, Clone, Copy, PartialEq, Eq, Structural)]
pub struct SpectrogramConfig {
    /// Transform window length, in samples.
    pub window_size: usize,
    /// Hop length between consecutive windows, in samples.
    pub stride: usize,
    /// Sample rate of the analyzed stream, in Hz.
    pub sample_rate: u32,
}

impl SpectrogramConfig {
    /// A usable configuration: overlapping frames and a window small enough
    /// that every derived frequency fits the integer arithmetic below.
    pub open spec fn wf(self) -> bool {
        &&& 1 <= self.stride
        &&& self.stride <= self.window_size
        &&& self.window_size <= u32::MAX
        &&& 1 <= self.sample_rate
    }
}

impl Default for SpectrogramConfig {
    /// 1024-sample windows, half-window hop, 48 kHz.
    fn default() -> (r: SpectrogramConfig)
        ensures
            r == (SpectrogramConfig { window_size: 1024, stride: 512, sample_rate: 48000 }),
            r.wf(),
    {
        SpectrogramConfig { window_size: 1024, stride: 512, sample_rate: 48000 }
    }
}

/// Number of whole analysis windows in a stream of `num_samples` samples:
/// `(num_samples - window_size) / stride + 1`, or an `UndersizedInput` error
/// when the stream is shorter than one window.
pub fn num_windows(num_samples: usize, config: &SpectrogramConfig) -> (r: Result<
    usize,
    FingerprintError,
>)
    requires
        config.wf(),
    ensures
        num_samples < config.window_size ==> r == Result::<usize, FingerprintError>::Err(
            FingerprintError::UndersizedInput,
        ),
        num_samples >= config.window_size ==> (r matches Ok(w) && w == (num_samples
            - config.window_size) as int / (config.stride as int) + 1),
{
    if num_samples < config.window_size {
        Err(FingerprintError::UndersizedInput)
    } else {
        let gap: usize = num_samples - config.window_size;
        Ok(gap / config.stride + 1)
    }
}

/// One magnitude vector per time frame, in frame order. Each vector holds the
/// non-redundant first `window_size / 2` bins of the transform of that frame.
pub struct Spectrogram {
    pub data: Vec<Vec<u32>>,
    pub config: SpectrogramConfig,
}

impl Spectrogram {
    /// The magnitude grid: `frames()[t][k]` is the magnitude of frequency bin
    /// `k` in time frame `t`.
    pub open spec fn frames(self) -> Seq<Seq<u32>> {
        self.data@.map_values(|v: Vec<u32>| v@)
    }

    pub open spec fn cfg(self) -> SpectrogramConfig {
        self.config
    }

    /// Well-formed grid: usable configuration, every frame of length
    /// `window_size / 2`, and few enough frames that every frame's start time
    /// in milliseconds fits the time arithmetic of the pipeline.
    pub open spec fn wf(self) -> bool {
        &&& self.config.wf()
        &&& forall|t: int|
            0 <= t < self.frames().len() ==> (#[trigger] self.frames()[t]).len()
                == self.config.window_size / 2
        &&& self.frames().len() * self.config.stride * 1000 <= u64::MAX
        &&& self.frames().len() * self.config.stride * 1000 / (self.config.sample_rate as int)
            <= u32::MAX
    }

    /// Borrow one time frame's magnitude vector.
    pub fn frame(&self, t: usize) -> (r: &Vec<u32>)
        requires
            t < self.frames().len(),
        ensures
            r@ == self.frames()[t as int],
    {
        &self.data[t]
    }

    pub fn num_frames(&self) -> (r: usize)
        ensures
            r == self.frames().len(),
    {
        self.data.len()
    }

    pub fn config(&self) -> (r: &SpectrogramConfig)
        ensures
            *r == self.cfg(),
    {
        &self.config
    }
}

/// Assembles the spectrogram from full-length transform outputs, one per time
/// frame: of each vector only the first `window_size / 2` magnitudes are kept,
/// since for real-valued input the upper half of the transform output mirrors
/// the lower half and carries no further information.
pub fn compute_spectrogram(frames: Vec<Vec<u32>>, config: &SpectrogramConfig) -> (r: Spectrogram)
    requires
        config.wf(),
        forall|t: int| 0 <= t < frames@.len() ==> (#[trigger] frames@[t])@.len()
            == config.window_size,
        frames@.len() * config.stride * 1000 <= u64::MAX,
        frames@.len() * config.stride * 1000 / (config.sample_rate as int) <= u32::MAX,
    ensures
        r.wf(),
        r.cfg() == *config,
        r.frames().len() == frames@.len(),
        forall|t: int|
            0 <= t < frames@.len() ==> #[trigger] r.frames()[t] == frames@[t]@.take(
                (config.window_size / 2) as int,
            ),
{
    let ghost orig = frames@;
    let mut frames = frames;
    let half: usize = config.window_size / 2;
    let n = frames.len();
    let mut t: usize = 0;
    while t < n
        invariant
            n == frames@.len() == orig.len(),
            half == config.window_size / 2,
            forall|u: int| 0 <= u < n ==> (#[trigger] orig[u])@.len() == config.window_size,
            forall|u: int| t <= u < n ==> #[trigger] frames@[u] == orig[u],
            forall|u: int|
                0 <= u < t ==> #[trigger] frames@[u]@ == orig[u]@.take(half as int),
        decreases n - t,
    {
        let mut frame = frames.remove(t);
        frame.truncate(half);
        frames.insert(t, frame);
        assert(frames@[t as int]@ =~= orig[t as int]@.take(half as int));
        t += 1;
    }
    let result = Spectrogram { data: frames, config: *config };
    proof {
        assert(forall|u: int|
            0 <= u < n ==> #[trigger] result.frames()[u] == frames@[u]@);
        assert(forall|u: int|
            0 <= u < n ==> (#[trigger] result.frames()[u]).len() == config.window_size / 2);
    }
    result
}

} // verus!
