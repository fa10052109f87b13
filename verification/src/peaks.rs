//! Peak extraction: each time frame of the spectrogram is reduced to its
//! locally dominant frequency bins.
//!
//! A bin is a peak when its magnitude is strictly greater than both
//! neighbours; the endpoint bins are kept when strictly greater than their
//! single neighbour. Per frame, the five most salient peaks are kept, most
//! salient first, ties resolved towards the lower bin.
use vstd::prelude::*;

use vstd::pervasive::VecAdditionalExecFns;
use vstd::relations::{sorted_by, total_ordering};
use vstd::seq_lib::lemma_sorted_unique;

use crate::spectrogram::{Spectrogram, SpectrogramConfig};

verus! {

/// How many peaks each time frame contributes at most.
pub const MAX_PEAKS_PER_FRAME: usize = 5;

/// A locally dominant point of the time-frequency grid.
///
/// `magnitude` is an order-preserving unsigned encoding of the spectral
/// magnitude: comparing two `magnitude` values orders the peaks exactly as
/// the underlying spectral magnitudes would.
#[derive(Debug, Clone, Copy, PartialEq, Eq, Structural)]
pub struct Peak {
    pub time_bin: usize,
    pub freq_bin: usize,
    pub magnitude: u32,
}

/// A peak whose derived frequency and time values fit the integer arithmetic
/// of the pipeline under `config`.
pub open spec fn valid_peak(p: Peak, config: SpectrogramConfig) -> bool {
    &&& p.freq_bin < config.window_size
    &&& p.time_bin * config.stride * 1000 <= u64::MAX
    &&& p.time_bin * config.stride * 1000 / (config.sample_rate as int) <= u32::MAX
}

/// Frequency of a peak's bin in Hz: `freq_bin * sample_rate / window_size`,
/// truncated to a whole number of Hz.
pub open spec fn spec_frequency_hz(p: Peak, config: SpectrogramConfig) -> int {
    p.freq_bin * config.sample_rate / (config.window_size as int)
}

/// Start time of a peak's frame in milliseconds:
/// `time_bin * stride * 1000 / sample_rate`, truncated to a whole number.
pub open spec fn spec_time_ms(p: Peak, config: SpectrogramConfig) -> int {
    p.time_bin * config.stride * 1000 / (config.sample_rate as int)
}

impl Peak {
    pub fn new(time_bin: usize, freq_bin: usize, magnitude: u32) -> (r: Peak)
        ensures
            r == (Peak { time_bin, freq_bin, magnitude }),
    {
        Peak { time_bin, freq_bin, magnitude }
    }

    /// Each frequency bin spans `sample_rate / window_size` Hz, so bin
    /// `freq_bin` sits at `freq_bin * sample_rate / window_size` Hz.
    pub fn frequency_hz(&self, config: &SpectrogramConfig) -> (r: u32)
        requires
            config.wf(),
            self.freq_bin < config.window_size,
        ensures
            r == spec_frequency_hz(*self, *config),
    {
        proof {
            assert((self.freq_bin as int) * (config.sample_rate as int) < (config.window_size
                as int) * (config.sample_rate as int)) by (nonlinear_arith)
                requires
                    self.freq_bin < config.window_size,
                    config.sample_rate >= 1,
            ;
            assert((config.window_size as int) * (config.sample_rate as int) <= u32::MAX
                * (u32::MAX as int)) by (nonlinear_arith)
                requires
                    config.window_size <= u32::MAX,
                    1 <= config.sample_rate <= u32::MAX,
            ;
            assert((self.freq_bin as int) * (config.sample_rate as int) / (config.window_size
                as int) < config.sample_rate as int) by (nonlinear_arith)
                requires
                    (self.freq_bin as int) * (config.sample_rate as int) < (config.window_size
                        as int) * (config.sample_rate as int),
                    config.window_size >= 1,
                    config.sample_rate >= 1,
            ;
        }
        ((self.freq_bin as u64) * (config.sample_rate as u64) / (config.window_size as u64)) as u32
    }

    /// Each time bin spans `stride / sample_rate` seconds; the frame's start
    /// time is reported in whole milliseconds.
    pub fn time_ms(&self, config: &SpectrogramConfig) -> (r: u32)
        requires
            config.wf(),
            valid_peak(*self, *config),
        ensures
            r == spec_time_ms(*self, *config),
    {
        proof {
            assert((self.time_bin as int) * (config.stride as int) <= (self.time_bin as int)
                * (config.stride as int) * 1000) by (nonlinear_arith)
                requires
                    self.time_bin >= 0,
                    config.stride >= 1,
            ;
        }
        ((self.time_bin as u64) * (config.stride as u64) * 1000 / (config.sample_rate as u64))
            as u32
    }
}

/// Salience order used inside one frame: greater magnitude first, ties
/// towards the lower frequency bin, then the lower time bin. A total order
/// on peaks, so each frame's ranking is uniquely determined.
pub open spec fn peak_mag_leq(a: Peak, b: Peak) -> bool {
    ||| a.magnitude > b.magnitude
    ||| (a.magnitude == b.magnitude && a.freq_bin < b.freq_bin)
    ||| (a.magnitude == b.magnitude && a.freq_bin == b.freq_bin && a.time_bin <= b.time_bin)
}

pub proof fn lemma_peak_mag_leq_total()
    ensures
        total_ordering(|a: Peak, b: Peak| peak_mag_leq(a, b)),
{
    let leq = |a: Peak, b: Peak| peak_mag_leq(a, b);
    assert forall|a: Peak, b: Peak| #[trigger] leq(a, b) && #[trigger] leq(b, a) implies a == b by {
        assert(a.magnitude == b.magnitude && a.freq_bin == b.freq_bin && a.time_bin == b.time_bin);
    }
}

/// Bin `k` of `frame` is a local peak: strictly greater than both neighbours
/// (interior bins) or than its single neighbour (endpoint bins). Frames with
/// fewer than three bins contribute no peaks.
pub open spec fn is_peak_bin(frame: Seq<u32>, k: int) -> bool {
    &&& frame.len() >= 3
    &&& 0 <= k < frame.len()
    &&& (k == 0 ==> frame[0] > frame[1])
    &&& (k == frame.len() - 1 ==> frame[k] > frame[k - 1])
    &&& (0 < k < frame.len() - 1 ==> frame[k] > frame[k - 1] && frame[k] > frame[k + 1])
}

/// A frame of strictly increasing magnitudes has no interior local maximum:
/// only the upper endpoint, which the endpoint policy admits, is a peak.
pub proof fn lemma_monotone_frame_single_peak(frame: Seq<u32>)
    requires
        frame.len() >= 3,
        forall|i: int| 0 <= i < frame.len() - 1 ==> #[trigger] frame[i] < frame[i + 1],
    ensures
        forall|k: int| is_peak_bin(frame, k) <==> k == frame.len() - 1,
{
    assert forall|k: int| is_peak_bin(frame, k) <==> k == frame.len() - 1 by {
        if 0 <= k < frame.len() - 1 {
            assert(frame[k] < frame[k + 1]);
        }
        if k == frame.len() - 1 {
            assert(frame[k - 1] < frame[k]);
        }
    }
}

/// The peaks of `frame` at bins below `k`, in increasing bin order.
pub open spec fn candidates_upto(frame: Seq<u32>, time_bin: int, k: int) -> Seq<Peak>
    decreases k,
{
    if k <= 0 {
        Seq::empty()
    } else if is_peak_bin(frame, k - 1) {
        candidates_upto(frame, time_bin, k - 1).push(
            Peak {
                time_bin: time_bin as usize,
                freq_bin: (k - 1) as usize,
                magnitude: frame[k - 1],
            },
        )
    } else {
        candidates_upto(frame, time_bin, k - 1)
    }
}

/// All local peaks of one frame, in increasing bin order.
pub open spec fn frame_candidates(frame: Seq<u32>, time_bin: int) -> Seq<Peak> {
    candidates_upto(frame, time_bin, frame.len() as int)
}

/// What one frame contributes: its local peaks ranked by salience, reduced to
/// the five most salient.
pub open spec fn top_frame_peaks(frame: Seq<u32>, time_bin: int) -> Seq<Peak> {
    let ranked = frame_candidates(frame, time_bin).sort_by(|a: Peak, b: Peak| peak_mag_leq(a, b));
    if ranked.len() <= MAX_PEAKS_PER_FRAME {
        ranked
    } else {
        ranked.take(MAX_PEAKS_PER_FRAME as int)
    }
}

proof fn lemma_candidates_upto_props(frame: Seq<u32>, time_bin: int, k: int)
    requires
        k <= frame.len(),
        frame.len() <= usize::MAX,
        0 <= time_bin <= usize::MAX,
    ensures
        forall|i: int|
            0 <= i < candidates_upto(frame, time_bin, k).len() ==> {
                let p = #[trigger] candidates_upto(frame, time_bin, k)[i];
                &&& is_peak_bin(frame, p.freq_bin as int)
                &&& p.freq_bin < k
                &&& p.time_bin == time_bin
                &&& p.magnitude == frame[p.freq_bin as int]
            },
        candidates_upto(frame, time_bin, k).len() <= k || k < 0,
    decreases k,
{
    if k > 0 {
        lemma_candidates_upto_props(frame, time_bin, k - 1);
        let prev = candidates_upto(frame, time_bin, k - 1);
        let cur = candidates_upto(frame, time_bin, k);
        if is_peak_bin(frame, k - 1) {
            let p = Peak {
                time_bin: time_bin as usize,
                freq_bin: (k - 1) as usize,
                magnitude: frame[k - 1],
            };
            assert(cur == prev.push(p));
            assert(forall|i: int| 0 <= i < prev.len() ==> #[trigger] cur[i] == prev[i]);
            assert(cur[cur.len() - 1] == p);
        }
    }
}

/// Every kept peak is a local peak of its frame, carries that frame's index
/// and the magnitude of its own bin; at most five are kept, ranked most
/// salient first.
pub proof fn lemma_top_frame_peaks_props(frame: Seq<u32>, time_bin: int)
    requires
        frame.len() <= usize::MAX,
        0 <= time_bin <= usize::MAX,
    ensures
        top_frame_peaks(frame, time_bin).len() == if frame_candidates(frame, time_bin).len()
            <= MAX_PEAKS_PER_FRAME {
            frame_candidates(frame, time_bin).len()
        } else {
            MAX_PEAKS_PER_FRAME as nat
        },
        forall|i: int|
            0 <= i < top_frame_peaks(frame, time_bin).len() ==> {
                let p = #[trigger] top_frame_peaks(frame, time_bin)[i];
                &&& is_peak_bin(frame, p.freq_bin as int)
                &&& p.freq_bin < frame.len()
                &&& p.time_bin == time_bin
                &&& p.magnitude == frame[p.freq_bin as int]
            },
        forall|i: int, j: int|
            0 <= i < j < top_frame_peaks(frame, time_bin).len() ==> peak_mag_leq(
                #[trigger] top_frame_peaks(frame, time_bin)[i],
                #[trigger] top_frame_peaks(frame, time_bin)[j],
            ),
{
    broadcast use vstd::seq_lib::group_to_multiset_ensures;

    let cands = frame_candidates(frame, time_bin);
    let leq = |a: Peak, b: Peak| peak_mag_leq(a, b);
    let ranked = cands.sort_by(leq);
    lemma_peak_mag_leq_total();
    cands.lemma_sort_by_ensures(leq);
    lemma_candidates_upto_props(frame, time_bin, frame.len() as int);
    assert(ranked.to_multiset().len() == ranked.len());
    assert(cands.to_multiset().len() == cands.len());
    assert(ranked.len() == cands.len());
    let top = top_frame_peaks(frame, time_bin);
    assert(forall|i: int| 0 <= i < top.len() ==> #[trigger] top[i] == ranked[i]);
    assert forall|i: int, j: int| 0 <= i < j < top.len() implies peak_mag_leq(
        top[i],
        top[j],
    ) by {
        assert(top[i] == ranked[i]);
        assert(top[j] == ranked[j]);
        assert(leq(ranked[i], ranked[j]));
    }
    assert forall|i: int| 0 <= i < ranked.len() implies {
        let p = #[trigger] ranked[i];
        &&& is_peak_bin(frame, p.freq_bin as int)
        &&& p.freq_bin < frame.len()
        &&& p.time_bin == time_bin
        &&& p.magnitude == frame[p.freq_bin as int]
    } by {
        assert(ranked.to_multiset().contains(ranked[i]));
        assert(cands.to_multiset().contains(ranked[i]));
        assert(cands.contains(ranked[i]));
    }
}

/// Collects the local peaks of one frame, in increasing bin order.
fn collect_candidates(magnitudes: &Vec<u32>, time_bin: usize) -> (r: Vec<Peak>)
    ensures
        r@ == frame_candidates(magnitudes@, time_bin as int),
{
    let mut r: Vec<Peak> = Vec::new();
    let n = magnitudes.len();
    if n < 3 {
        assert(forall|k: int| !is_peak_bin(magnitudes@, k));
        proof {
            assert(r@ =~= frame_candidates(magnitudes@, time_bin as int)) by {
                lemma_candidates_empty(magnitudes@, time_bin as int, n as int);
            }
        }
        return r;
    }
    let mut k: usize = 0;
    while k < n
        invariant
            n == magnitudes@.len(),
            3 <= n,
            k <= n,
            r@ == candidates_upto(magnitudes@, time_bin as int, k as int),
        decreases n - k,
    {
        let here = magnitudes[k];
        let is_peak: bool = if k == 0 {
            here > magnitudes[1]
        } else if k == n - 1 {
            here > magnitudes[k - 1]
        } else {
            here > magnitudes[k - 1] && here > magnitudes[k + 1]
        };
        if is_peak {
            r.push(Peak { time_bin, freq_bin: k, magnitude: here });
        }
        k += 1;
    }
    r
}

proof fn lemma_candidates_empty(frame: Seq<u32>, time_bin: int, k: int)
    requires
        forall|i: int| !is_peak_bin(frame, i),
    ensures
        candidates_upto(frame, time_bin, k).len() == 0,
    decreases k,
{
    if k > 0 {
        lemma_candidates_empty(frame, time_bin, k - 1);
    }
}

/// Decides the salience order between two peaks.
fn salience_le(a: &Peak, b: &Peak) -> (r: bool)
    ensures
        r == peak_mag_leq(*a, *b),
{
    a.magnitude > b.magnitude || (a.magnitude == b.magnitude && (a.freq_bin < b.freq_bin
        || (a.freq_bin == b.freq_bin && a.time_bin <= b.time_bin)))
}

/// Exchanging two positions of a sequence leaves its multiset of elements
/// unchanged.
pub(crate) proof fn lemma_swap_multiset<A>(s: Seq<A>, i: int, j: int)
    requires
        0 <= i < s.len(),
        0 <= j < s.len(),
    ensures
        s.update(i, s[j]).update(j, s[i]).to_multiset() == s.to_multiset(),
{
    broadcast use vstd::seq_lib::group_to_multiset_ensures;
    broadcast use vstd::seq_lib::to_multiset_update;
    broadcast use vstd::multiset::group_multiset_axioms;

    if i == j {
        assert(s.update(i, s[j]).update(j, s[i]) =~= s);
    } else {
        let s1 = s.update(i, s[j]);
        let s2 = s1.update(j, s[i]);
        assert(s1[j] == s[j]);
        assert(s2.to_multiset() =~= s.to_multiset());
    }
}

/// The time order used to arrange peaks for the anchor sweep: earlier frame
/// first, ties towards the lower frequency bin, then the lower magnitude.
/// A total order on peaks, so the sweep order is uniquely determined.
pub open spec fn peak_time_leq(a: Peak, b: Peak) -> bool {
    ||| a.time_bin < b.time_bin
    ||| (a.time_bin == b.time_bin && a.freq_bin < b.freq_bin)
    ||| (a.time_bin == b.time_bin && a.freq_bin == b.freq_bin && a.magnitude <= b.magnitude)
}

pub proof fn lemma_peak_time_leq_total()
    ensures
        total_ordering(|a: Peak, b: Peak| peak_time_leq(a, b)),
{
    let leq = |a: Peak, b: Peak| peak_time_leq(a, b);
    assert forall|a: Peak, b: Peak| #[trigger] leq(a, b) && #[trigger] leq(b, a) implies a == b by {
        assert(a.time_bin == b.time_bin && a.freq_bin == b.freq_bin && a.magnitude == b.magnitude);
    }
}

/// Decides the time order between two peaks.
fn time_le(a: &Peak, b: &Peak) -> (r: bool)
    ensures
        r == peak_time_leq(*a, *b),
{
    a.time_bin < b.time_bin || (a.time_bin == b.time_bin && (a.freq_bin < b.freq_bin
        || (a.freq_bin == b.freq_bin && a.magnitude <= b.magnitude)))
}

/// Sorts peaks into the anchor sweep order (insertion sort); the result is
/// exactly the arrangement that `Seq::sort_by` with the time order describes.
pub fn sort_by_time(v: &mut Vec<Peak>)
    ensures
        final(v)@ == old(v)@.sort_by(|a: Peak, b: Peak| peak_time_leq(a, b)),
{
    let ghost leq = |a: Peak, b: Peak| peak_time_leq(a, b);
    let ghost orig = v@;
    let n = v.len();
    if n > 1 {
        let mut i: usize = 1;
        while i < n
            invariant
                n == v@.len() == orig.len(),
                1 <= i <= n,
                v@.to_multiset() == orig.to_multiset(),
                forall|a: int, b: int| 0 <= a < b < i ==> peak_time_leq(v@[a], v@[b]),
            decreases n - i,
        {
            let mut j: usize = i;
            while j > 0 && !time_le(&v[j - 1], &v[j])
                invariant
                    n == v@.len() == orig.len(),
                    j <= i < n,
                    v@.to_multiset() == orig.to_multiset(),
                    forall|a: int, b: int|
                        0 <= a < b <= i && b != j ==> peak_time_leq(v@[a], v@[b]),
                decreases j,
            {
                let x = v[j];
                let y = v[j - 1];
                proof {
                    lemma_swap_multiset(v@, j as int, j - 1);
                }
                v.set(j, y);
                v.set(j - 1, x);
                j -= 1;
            }
            assert forall|a: int, b: int| 0 <= a < b < i + 1 implies peak_time_leq(
                v@[a],
                v@[b],
            ) by {
                if b == j && j > 0 {
                    assert(peak_time_leq(v@[j - 1], v@[j as int]));
                    if a < j - 1 {
                        assert(peak_time_leq(v@[a], v@[j - 1]));
                    }
                }
            }
            i += 1;
        }
    }
    proof {
        lemma_peak_time_leq_total();
        orig.lemma_sort_by_ensures(leq);
        assert(sorted_by(v@, leq));
        lemma_sorted_unique(v@, orig.sort_by(leq), leq);
    }
}

/// Sorts peaks by decreasing salience (insertion sort); the result is exactly
/// the ranking that `Seq::sort_by` with the salience order describes.
fn sort_by_salience(v: &mut Vec<Peak>)
    ensures
        final(v)@ == old(v)@.sort_by(|a: Peak, b: Peak| peak_mag_leq(a, b)),
{
    let ghost leq = |a: Peak, b: Peak| peak_mag_leq(a, b);
    let ghost orig = v@;
    let n = v.len();
    if n > 1 {
        let mut i: usize = 1;
        while i < n
            invariant
                n == v@.len() == orig.len(),
                1 <= i <= n,
                v@.to_multiset() == orig.to_multiset(),
                forall|a: int, b: int| 0 <= a < b < i ==> peak_mag_leq(v@[a], v@[b]),
            decreases n - i,
        {
            let mut j: usize = i;
            while j > 0 && !salience_le(&v[j - 1], &v[j])
                invariant
                    n == v@.len() == orig.len(),
                    j <= i < n,
                    v@.to_multiset() == orig.to_multiset(),
                    forall|a: int, b: int|
                        0 <= a < b <= i && b != j ==> peak_mag_leq(v@[a], v@[b]),
                decreases j,
            {
                let x = v[j];
                let y = v[j - 1];
                proof {
                    lemma_swap_multiset(v@, j as int, j - 1);
                }
                v.set(j, y);
                v.set(j - 1, x);
                j -= 1;
            }
            assert forall|a: int, b: int| 0 <= a < b < i + 1 implies peak_mag_leq(
                v@[a],
                v@[b],
            ) by {
                if b == j && j > 0 {
                    assert(peak_mag_leq(v@[j - 1], v@[j as int]));
                    if a < j - 1 {
                        assert(peak_mag_leq(v@[a], v@[j - 1]));
                    }
                }
            }
            i += 1;
        }
    }
    proof {
        lemma_peak_mag_leq_total();
        orig.lemma_sort_by_ensures(leq);
        assert(sorted_by(v@, leq));
        lemma_sorted_unique(v@, orig.sort_by(leq), leq);
    }
}

/// Reduces one frame's magnitude vector to its kept peaks: the local peaks,
/// ranked by salience, reduced to the five most salient.
pub fn find_frequency_peaks(magnitudes: &Vec<u32>, time_bin: usize) -> (r: Vec<Peak>)
    ensures
        r@ == top_frame_peaks(magnitudes@, time_bin as int),
{
    let mut cands = collect_candidates(magnitudes, time_bin);
    sort_by_salience(&mut cands);
    if cands.len() > MAX_PEAKS_PER_FRAME {
        cands.truncate(MAX_PEAKS_PER_FRAME);
        assert(cands@ =~= top_frame_peaks(magnitudes@, time_bin as int));
    }
    cands
}

/// The concatenation of all frames' kept peaks, in frame order, for the first
/// `t` frames.
pub open spec fn all_kept_peaks(frames: Seq<Seq<u32>>, t: int) -> Seq<Peak>
    decreases t,
{
    if t <= 0 {
        Seq::empty()
    } else {
        all_kept_peaks(frames, t - 1) + top_frame_peaks(frames[t - 1], t - 1)
    }
}

/// Everything extraction guarantees about the peak list of a well-formed
/// spectrogram's frames: each peak is a local peak of its own frame with that
/// frame's index and magnitude, peaks come in frame order, and each frame
/// contributes at most five.
pub proof fn lemma_all_kept_peaks_props(frames: Seq<Seq<u32>>, t: int)
    requires
        t <= frames.len(),
        t <= usize::MAX,
        forall|u: int| 0 <= u < frames.len() ==> (#[trigger] frames[u]).len() <= usize::MAX,
    ensures
        all_kept_peaks(frames, t).len() <= 5 * t || t < 0,
        forall|i: int|
            0 <= i < all_kept_peaks(frames, t).len() ==> {
                let p = #[trigger] all_kept_peaks(frames, t)[i];
                &&& p.time_bin < t
                &&& is_peak_bin(frames[p.time_bin as int], p.freq_bin as int)
                &&& p.freq_bin < frames[p.time_bin as int].len()
                &&& p.magnitude == frames[p.time_bin as int][p.freq_bin as int]
            },
        forall|i: int, j: int|
            0 <= i < j < all_kept_peaks(frames, t).len()
                ==> #[trigger] all_kept_peaks(frames, t)[i].time_bin
                <= #[trigger] all_kept_peaks(frames, t)[j].time_bin,
    decreases t,
{
    if t > 0 {
        lemma_all_kept_peaks_props(frames, t - 1);
        lemma_top_frame_peaks_props(frames[t - 1], t - 1);
    }
}

/// Walks the spectrogram frame by frame and concatenates each frame's kept
/// peaks, in frame order; no deduplication across frames.
pub fn extract_peaks(spectrogram: &Spectrogram) -> (r: Vec<Peak>)
    ensures
        r@ == all_kept_peaks(spectrogram.frames(), spectrogram.frames().len() as int),
{
    let mut r: Vec<Peak> = Vec::new();
    let n = spectrogram.num_frames();
    let mut t: usize = 0;
    while t < n
        invariant
            n == spectrogram.frames().len(),
            t <= n,
            r@ == all_kept_peaks(spectrogram.frames(), t as int),
        decreases n - t,
    {
        let mut chunk = find_frequency_peaks(spectrogram.frame(t), t);
        r.append(&mut chunk);
        t += 1;
    }
    r
}

} // verus!
