//! Landmark fingerprints: pairs of peaks, hashed as
//! `(lower frequency, higher frequency, time separation)`.
//!
//! Peaks are swept in time order. Each peak acts once as an anchor and is
//! paired with up to five targets drawn at random from the peaks that follow
//! it by at least 50 ms and at most 2000 ms.
use vstd::prelude::*;

use vstd::arithmetic::div_mod::lemma_div_is_ordered;
use vstd::pervasive::VecAdditionalExecFns;

use crate::peaks::{
    lemma_swap_multiset, peak_time_leq, sort_by_time, spec_frequency_hz, spec_time_ms, valid_peak,
    Peak,
};
use crate::sampling::rand_index;
use crate::spectrogram::SpectrogramConfig;

verus! {

/// Targets closer to their anchor than this add no discriminating power and
/// are skipped.
pub const MIN_TIME_DELTA_MS: u32 = 50;

/// The pairing window: targets farther from their anchor than this are never
/// paired.
pub const MAX_TIME_DELTA_MS: u32 = 2000;

/// At most this many targets are paired with one anchor.
pub const NUM_TARGET_PEAKS: usize = 5;

/// The hash key of the index: the two paired frequencies in Hz with the
/// lower one first, and the pair's time separation in milliseconds.
#[derive(Debug, Clone, Copy, PartialEq, Eq, Hash, Structural)]
pub struct Fingerprint {
    pub freq1: u32,
    pub freq2: u32,
    pub time_delta: u32,
}

/// The fingerprint of a pair of peaks: frequencies in canonical order, time
/// separation as an absolute difference, so the result does not depend on
/// which of the two peaks is the anchor.
pub open spec fn spec_fingerprint(a: Peak, t: Peak, c: SpectrogramConfig) -> Fingerprint {
    let fa = spec_frequency_hz(a, c);
    let ft = spec_frequency_hz(t, c);
    let ma = spec_time_ms(a, c);
    let mt = spec_time_ms(t, c);
    Fingerprint {
        freq1: (if fa <= ft { fa } else { ft }) as u32,
        freq2: (if fa <= ft { ft } else { fa }) as u32,
        time_delta: (if mt >= ma { mt - ma } else { ma - mt }) as u32,
    }
}

/// The truncated frequency of a valid peak lies below the sample rate.
pub proof fn lemma_frequency_hz_bounds(p: Peak, c: SpectrogramConfig)
    requires
        c.wf(),
        p.freq_bin < c.window_size,
    ensures
        0 <= spec_frequency_hz(p, c) < c.sample_rate,
{
    assert(0 <= p.freq_bin * c.sample_rate) by (nonlinear_arith)
        requires
            p.freq_bin >= 0,
            c.sample_rate >= 1,
    ;
    assert(p.freq_bin * c.sample_rate / (c.window_size as int) >= 0) by (nonlinear_arith)
        requires
            p.freq_bin * c.sample_rate >= 0,
            c.window_size >= 1,
    ;
    assert(p.freq_bin * c.sample_rate / (c.window_size as int) < c.sample_rate)
        by (nonlinear_arith)
        requires
            p.freq_bin < c.window_size,
            c.window_size >= 1,
            c.sample_rate >= 1,
    ;
}

/// The truncated millisecond time of a valid peak fits a `u32`.
pub proof fn lemma_time_ms_bounds(p: Peak, c: SpectrogramConfig)
    requires
        c.wf(),
        valid_peak(p, c),
    ensures
        0 <= spec_time_ms(p, c) <= u32::MAX,
{
    assert(p.time_bin * c.stride * 1000 >= 0) by (nonlinear_arith)
        requires
            p.time_bin >= 0,
            c.stride >= 1,
    ;
    assert(p.time_bin * c.stride * 1000 / (c.sample_rate as int) >= 0) by (nonlinear_arith)
        requires
            p.time_bin * c.stride * 1000 >= 0,
            c.sample_rate >= 1,
    ;
}

/// A peak of an earlier (or the same) frame has an earlier (or the same)
/// truncated millisecond time.
pub proof fn lemma_time_ms_monotone(p: Peak, q: Peak, c: SpectrogramConfig)
    requires
        c.wf(),
        valid_peak(p, c),
        valid_peak(q, c),
        p.time_bin <= q.time_bin,
    ensures
        spec_time_ms(p, c) <= spec_time_ms(q, c),
{
    assert(p.time_bin * c.stride * 1000 <= q.time_bin * c.stride * 1000) by (nonlinear_arith)
        requires
            p.time_bin <= q.time_bin,
            c.stride >= 1,
    ;
    lemma_div_is_ordered(
        p.time_bin * c.stride * 1000,
        q.time_bin * c.stride * 1000,
        c.sample_rate as int,
    );
}

/// Swapping anchor and target changes neither the key's frequency order nor
/// its time separation, and the lower frequency always comes first.
pub proof fn lemma_fingerprint_canonical(a: Peak, b: Peak, c: SpectrogramConfig)
    requires
        c.wf(),
        valid_peak(a, c),
        valid_peak(b, c),
    ensures
        spec_fingerprint(a, b, c) == spec_fingerprint(b, a, c),
        spec_fingerprint(a, b, c).freq1 <= spec_fingerprint(a, b, c).freq2,
{
    lemma_frequency_hz_bounds(a, c);
    lemma_frequency_hz_bounds(b, c);
    lemma_time_ms_bounds(a, c);
    lemma_time_ms_bounds(b, c);
}

/// Computes the landmark fingerprint of an anchor-target pair.
pub fn create_fingerprint(anchor: &Peak, target: &Peak, config: &SpectrogramConfig) -> (r:
    Fingerprint)
    requires
        config.wf(),
        valid_peak(*anchor, *config),
        valid_peak(*target, *config),
    ensures
        r == spec_fingerprint(*anchor, *target, *config),
{
    proof {
        lemma_frequency_hz_bounds(*anchor, *config);
        lemma_frequency_hz_bounds(*target, *config);
        lemma_time_ms_bounds(*anchor, *config);
        lemma_time_ms_bounds(*target, *config);
    }
    let fa = anchor.frequency_hz(config);
    let ft = target.frequency_hz(config);
    let ma = anchor.time_ms(config);
    let mt = target.time_ms(config);
    let (f1, f2) = if fa <= ft {
        (fa, ft)
    } else {
        (ft, fa)
    };
    let delta = if mt >= ma {
        mt - ma
    } else {
        ma - mt
    };
    Fingerprint { freq1: f1, freq2: f2, time_delta: delta }
}

/// Peak `j` is a usable target for anchor `i` of the time-ordered peak list
/// `s`: it follows the anchor and their time separation lies within the
/// pairing window.
pub open spec fn target_ok(s: Seq<Peak>, i: int, j: int, c: SpectrogramConfig) -> bool {
    &&& 0 <= i < j < s.len()
    &&& MIN_TIME_DELTA_MS <= spec_time_ms(s[j], c) - spec_time_ms(s[i], c)
    &&& spec_time_ms(s[j], c) - spec_time_ms(s[i], c) <= MAX_TIME_DELTA_MS
}

/// The usable targets of anchor `i` among positions below `j`, in increasing
/// position order.
pub open spec fn targets_upto(s: Seq<Peak>, i: int, j: int, c: SpectrogramConfig) -> Seq<usize>
    decreases j - i,
{
    if j <= i + 1 {
        Seq::empty()
    } else if target_ok(s, i, j - 1, c) {
        targets_upto(s, i, j - 1, c).push(#[verifier::truncate] ((j - 1) as usize))
    } else {
        targets_upto(s, i, j - 1, c)
    }
}

/// How many usable targets anchor `i` has in the whole list.
pub open spec fn n_valid_targets(s: Seq<Peak>, i: int, c: SpectrogramConfig) -> nat {
    targets_upto(s, i, s.len() as int, c).len()
}

proof fn lemma_targets_upto_props(s: Seq<Peak>, i: int, j: int, c: SpectrogramConfig)
    requires
        0 <= i,
        j <= s.len(),
        s.len() <= usize::MAX,
    ensures
        forall|k: int|
            0 <= k < targets_upto(s, i, j, c).len() ==> {
                let t = #[trigger] targets_upto(s, i, j, c)[k];
                &&& i < t < j
                &&& target_ok(s, i, t as int, c)
            },
        forall|k1: int, k2: int|
            0 <= k1 < k2 < targets_upto(s, i, j, c).len()
                ==> #[trigger] targets_upto(s, i, j, c)[k1] < #[trigger] targets_upto(
                s,
                i,
                j,
                c,
            )[k2],
    decreases j - i,
{
    if j > i + 1 {
        lemma_targets_upto_props(s, i, j - 1, c);
        let prev = targets_upto(s, i, j - 1, c);
        let cur = targets_upto(s, i, j, c);
        if target_ok(s, i, j - 1, c) {
            assert(cur == prev.push((j - 1) as usize));
            assert(forall|k: int| 0 <= k < prev.len() ==> #[trigger] cur[k] == prev[k]);
            assert(cur[cur.len() - 1] == (j - 1) as usize);
        }
    }
}

/// Once the sweep has passed the pairing window, no later position is a
/// usable target, so the target list no longer grows.
proof fn lemma_targets_stable(s: Seq<Peak>, i: int, j: int, k: int, c: SpectrogramConfig)
    requires
        i + 1 <= j <= k <= s.len(),
        forall|jj: int| j <= jj < k ==> !target_ok(s, i, jj, c),
    ensures
        targets_upto(s, i, k, c) == targets_upto(s, i, j, c),
    decreases k - j,
{
    if k > j {
        lemma_targets_stable(s, i, j, k - 1, c);
    }
}

/// Collects the usable targets of anchor `i` in increasing position order,
/// stopping the scan at the first position past the pairing window — the
/// list is time-ordered, so every later position is past it too.
fn collect_targets(sorted: &Vec<Peak>, i: usize, config: &SpectrogramConfig) -> (r: Vec<usize>)
    requires
        config.wf(),
        i < sorted@.len(),
        forall|k: int| 0 <= k < sorted@.len() ==> valid_peak(#[trigger] sorted@[k], *config),
        forall|a: int, b: int|
            0 <= a < b < sorted@.len() ==> (#[trigger] sorted@[a]).time_bin
                <= (#[trigger] sorted@[b]).time_bin,
    ensures
        r@ == targets_upto(sorted@, i as int, sorted@.len() as int, *config),
{
    let ghost s = sorted@;
    let ghost c = *config;
    let n = sorted.len();
    let anchor_ms = sorted[i].time_ms(config);
    let mut r: Vec<usize> = Vec::new();
    let mut j: usize = i + 1;
    let mut done = false;
    while j < n && !done
        invariant
            s == sorted@,
            c == *config,
            c.wf(),
            n == s.len() <= usize::MAX,
            i < n,
            i + 1 <= j <= n,
            anchor_ms == spec_time_ms(s[i as int], c),
            forall|k: int| 0 <= k < s.len() ==> valid_peak(#[trigger] s[k], c),
            forall|a: int, b: int|
                0 <= a < b < s.len() ==> (#[trigger] s[a]).time_bin <= (#[trigger] s[b]).time_bin,
            r@ == targets_upto(s, i as int, j as int, c),
            done ==> j < n && spec_time_ms(s[j as int], c) - spec_time_ms(s[i as int], c)
                > MAX_TIME_DELTA_MS,
        decreases n - j, (if done { 0int } else { 1int }),
    {
        proof {
            lemma_time_ms_monotone(s[i as int], s[j as int], c);
            lemma_time_ms_bounds(s[j as int], c);
        }
        let target_ms = sorted[j].time_ms(config);
        let diff = target_ms - anchor_ms;
        if diff > MAX_TIME_DELTA_MS {
            done = true;
        } else {
            if diff >= MIN_TIME_DELTA_MS {
                r.push(j);
            }
            j += 1;
        }
    }
    proof {
        if done {
            assert forall|jj: int| j <= jj < n implies !target_ok(s, i as int, jj, c) by {
                lemma_time_ms_monotone(s[j as int], s[jj], c);
            }
            lemma_targets_stable(s, i as int, j as int, n as int, c);
        }
    }
    r
}

/// The target indices behind one anchor's emitted list: one usable target
/// per entry, pairwise distinct — targets are drawn without replacement —
/// and every entry carries the anchor's own time offset.
pub open spec fn anchor_emission_witness(
    r: Seq<(Fingerprint, u32)>,
    s: Seq<Peak>,
    i: int,
    c: SpectrogramConfig,
    ts: Seq<int>,
) -> bool {
    &&& ts.len() == r.len()
    &&& forall|k1: int, k2: int| 0 <= k1 < k2 < ts.len() ==> ts[k1] != ts[k2]
    &&& forall|k: int|
        0 <= k < r.len() ==> {
            let t = #[trigger] ts[k];
            &&& target_ok(s, i, t, c)
            &&& r[k].0 == spec_fingerprint(s[i], s[t], c)
            &&& r[k].1 == spec_time_ms(s[i], c)
        }
}

/// What holds of every fingerprint list produced for one anchor, whatever
/// the random draws were: some sequence of pairwise distinct usable targets
/// explains it, entry by entry.
pub open spec fn anchor_emission_ok(
    r: Seq<(Fingerprint, u32)>,
    s: Seq<Peak>,
    i: int,
    c: SpectrogramConfig,
) -> bool {
    exists|ts: Seq<int>| anchor_emission_witness(r, s, i, c, ts)
}

/// Emits the fingerprints of one anchor: of its usable targets, at most five
/// are drawn at random without replacement, and one fingerprint is emitted
/// per drawn target, tagged with the anchor's absolute time offset.
///
/// The fan-out bound: exactly `min(5, number of usable targets)` fingerprints
/// carry this anchor's time offset — never more than five.
pub fn fingerprints_for_anchor(
    sorted: &Vec<Peak>,
    i: usize,
    config: &SpectrogramConfig,
    rng: &mut fastrand::Rng,
) -> (r: Vec<(Fingerprint, u32)>)
    requires
        config.wf(),
        i < sorted@.len(),
        forall|k: int| 0 <= k < sorted@.len() ==> valid_peak(#[trigger] sorted@[k], *config),
        forall|a: int, b: int|
            0 <= a < b < sorted@.len() ==> (#[trigger] sorted@[a]).time_bin
                <= (#[trigger] sorted@[b]).time_bin,
    ensures
        r@.len() == if n_valid_targets(sorted@, i as int, *config) < NUM_TARGET_PEAKS {
            n_valid_targets(sorted@, i as int, *config)
        } else {
            NUM_TARGET_PEAKS as nat
        },
        anchor_emission_ok(r@, sorted@, i as int, *config),
{
    broadcast use vstd::seq_lib::group_to_multiset_ensures;

    let ghost s = sorted@;
    let ghost c = *config;
    let n = sorted.len();
    let mut cands = collect_targets(sorted, i, config);
    let ghost cands0 = cands@;
    proof {
        lemma_targets_upto_props(s, i as int, s.len() as int, c);
        assert(cands0.no_duplicates());
        cands0.lemma_multiset_has_no_duplicates();
    }
    let len = cands.len();
    let mut j: usize = 0;
    while j < len
        invariant
            len == cands@.len() == cands0.len(),
            j <= len,
            cands@.to_multiset() == cands0.to_multiset(),
        decreases len - j,
    {
        let k = rand_index(rng, j, len);
        let x = cands[j];
        let y = cands[k];
        proof {
            lemma_swap_multiset(cands@, j as int, k as int);
        }
        cands.set(j, y);
        cands.set(k, x);
        j += 1;
    }
    proof {
        assert forall|x: usize| cands@.to_multiset().contains(x) implies cands@.to_multiset().count(
            x,
        ) == 1 by {
            assert(cands0.to_multiset().contains(x));
        }
        cands@.lemma_multiset_has_no_duplicates_conv();
    }
    let take_n = if cands.len() < NUM_TARGET_PEAKS {
        cands.len()
    } else {
        NUM_TARGET_PEAKS
    };
    let anchor = sorted[i];
    let anchor_ms = anchor.time_ms(config);
    let mut r: Vec<(Fingerprint, u32)> = Vec::new();
    let ghost mut ts: Seq<int> = Seq::empty();
    let mut k: usize = 0;
    while k < take_n
        invariant
            s == sorted@,
            c == *config,
            c.wf(),
            i < s.len(),
            s.len() <= usize::MAX,
            forall|m: int| 0 <= m < s.len() ==> valid_peak(#[trigger] s[m], c),
            anchor == s[i as int],
            anchor_ms == spec_time_ms(s[i as int], c),
            take_n <= cands@.len(),
            k <= take_n,
            cands@.to_multiset() == cands0.to_multiset(),
            cands@.no_duplicates(),
            cands0 == targets_upto(s, i as int, s.len() as int, c),
            r@.len() == k,
            ts.len() == k,
            forall|m: int| 0 <= m < k ==> #[trigger] ts[m] == cands@[m] as int,
            anchor_emission_witness(r@, s, i as int, c, ts),
        decreases take_n - k,
    {
        let t = cands[k];
        proof {
            cands@.to_multiset_ensures();
            cands0.to_multiset_ensures();
            assert(cands@[k as int] == t);
            assert(cands@.contains(t));
            assert(cands@.to_multiset().count(t) > 0);
            assert(cands0.to_multiset().count(t) > 0);
            assert(cands0.contains(t));
            let idx = choose|idx: int| 0 <= idx < cands0.len() && cands0[idx] == t;
            lemma_targets_upto_props(s, i as int, s.len() as int, c);
            assert(cands0[idx] == t);
            assert(target_ok(s, i as int, t as int, c));
        }
        let fp = create_fingerprint(&anchor, &sorted[t], config);
        r.push((fp, anchor_ms));
        proof {
            ts = ts.push(t as int);
            assert forall|k1: int, k2: int| 0 <= k1 < k2 < ts.len() implies ts[k1] != ts[k2] by {
                assert(ts[k1] == cands@[k1] as int);
                assert(ts[k2] == cands@[k2] as int);
            }
            assert forall|m: int| 0 <= m < r@.len() implies {
                let tw = #[trigger] ts[m];
                &&& target_ok(s, i as int, tw, c)
                &&& r@[m].0 == spec_fingerprint(s[i as int], s[tw], c)
                &&& r@[m].1 == spec_time_ms(s[i as int], c)
            } by {
                if m == r@.len() - 1 {
                    assert(ts[m] == t as int);
                    assert(target_ok(s, i as int, t as int, c) && r@[m].0 == spec_fingerprint(
                        s[i as int],
                        s[t as int],
                        c,
                    ) && r@[m].1 == spec_time_ms(s[i as int], c));
                }
            }
        }
        k += 1;
    }
    proof {
        assert(anchor_emission_witness(r@, s, i as int, c, ts));
    }
    r
}

/// The time-ordered arrangement of a peak list that the anchor sweep uses.
pub open spec fn time_sorted(peaks: Seq<Peak>) -> Seq<Peak> {
    peaks.sort_by(|a: Peak, b: Peak| peak_time_leq(a, b))
}

/// How many fingerprints the first `i` anchors of the time-ordered list
/// emit: each contributes the smaller of five and its usable target count.
pub open spec fn emissions_upto(s: Seq<Peak>, i: int, c: SpectrogramConfig) -> nat
    decreases i,
{
    if i <= 0 {
        0
    } else {
        emissions_upto(s, i - 1, c) + if n_valid_targets(s, i - 1, c) < NUM_TARGET_PEAKS {
            n_valid_targets(s, i - 1, c)
        } else {
            NUM_TARGET_PEAKS as nat
        }
    }
}

/// The anchor/target index pairs behind a generated fingerprint list:
/// entry `k` is the fingerprint of pair `pairs[k]`, every pair is a usable
/// anchor/target pair of the time-ordered list, and no pair repeats — in
/// particular, one anchor's drawn targets are pairwise distinct.
pub open spec fn emission_witness_ok(
    fps: Seq<(Fingerprint, u32)>,
    s: Seq<Peak>,
    c: SpectrogramConfig,
    pairs: Seq<(int, int)>,
) -> bool {
    &&& pairs.len() == fps.len()
    &&& forall|k1: int, k2: int| 0 <= k1 < k2 < pairs.len() ==> pairs[k1] != pairs[k2]
    &&& forall|k: int|
        0 <= k < fps.len() ==> {
            let p = #[trigger] pairs[k];
            &&& target_ok(s, p.0, p.1, c)
            &&& fps[k].0 == spec_fingerprint(s[p.0], s[p.1], c)
            &&& fps[k].1 == spec_time_ms(s[p.0], c)
        }
}

/// What holds of every fingerprint list generated from `peaks`, whatever
/// the random draws were: exactly `min(5, usable targets)` entries per
/// anchor of the time-ordered list — the count is deterministic even
/// though the draws are not — and some sequence of pairwise distinct
/// anchor/target pairs explains the entries, each target between 50 and
/// 2000 ms after its anchor, each entry tagged with its anchor's offset.
pub open spec fn valid_emission(
    fps: Seq<(Fingerprint, u32)>,
    peaks: Seq<Peak>,
    c: SpectrogramConfig,
) -> bool {
    &&& fps.len() == emissions_upto(time_sorted(peaks), peaks.len() as int, c)
    &&& exists|pairs: Seq<(int, int)>| emission_witness_ok(fps, time_sorted(peaks), c, pairs)
}

/// At most five fingerprints per anchor, in total.
pub proof fn lemma_emissions_upto_bound(s: Seq<Peak>, i: int, c: SpectrogramConfig)
    requires
        0 <= i,
    ensures
        emissions_upto(s, i, c) <= NUM_TARGET_PEAKS * i,
    decreases i,
{
    if i > 0 {
        lemma_emissions_upto_bound(s, i - 1, c);
    }
}

/// Sweeps the peaks in time order; each peak in turn anchors up to five
/// randomly drawn targets from its pairing window, and one fingerprint is
/// emitted per pair, tagged with the anchor's absolute time offset in
/// milliseconds.
pub fn generate_fingerprints(
    peaks: &Vec<Peak>,
    config: &SpectrogramConfig,
    rng: &mut fastrand::Rng,
) -> (r: Vec<(Fingerprint, u32)>)
    requires
        config.wf(),
        forall|k: int| 0 <= k < peaks@.len() ==> valid_peak(#[trigger] peaks@[k], *config),
    ensures
        valid_emission(r@, peaks@, *config),
{
    broadcast use vstd::seq_lib::group_to_multiset_ensures;

    let ghost c = *config;
    let mut sorted: Vec<Peak> = Vec::new();
    let np = peaks.len();
    let mut m: usize = 0;
    while m < np
        invariant
            np == peaks@.len(),
            m <= np,
            sorted@ == peaks@.take(m as int),
        decreases np - m,
    {
        sorted.push(peaks[m]);
        assert(sorted@ =~= peaks@.take(m + 1));
        m += 1;
    }
    assert(sorted@ =~= peaks@);
    sort_by_time(&mut sorted);
    let ghost s = sorted@;
    proof {
        let leq = |a: Peak, b: Peak| peak_time_leq(a, b);
        crate::peaks::lemma_peak_time_leq_total();
        peaks@.lemma_sort_by_ensures(leq);
        assert(s == time_sorted(peaks@));
        assert(s.to_multiset().len() == s.len());
        assert(peaks@.to_multiset().len() == peaks@.len());
        assert forall|k: int| 0 <= k < s.len() implies valid_peak(#[trigger] s[k], c) by {
            assert(s.to_multiset().contains(s[k]));
            assert(peaks@.contains(s[k]));
        }
        assert forall|a: int, b: int| 0 <= a < b < s.len() implies (#[trigger] s[a]).time_bin
            <= (#[trigger] s[b]).time_bin by {
            assert(leq(s[a], s[b]));
        }
    }
    let n = sorted.len();
    let mut r: Vec<(Fingerprint, u32)> = Vec::new();
    let ghost mut wit: Seq<(int, int)> = Seq::empty();
    let mut i: usize = 0;
    while i < n
        invariant
            s == sorted@,
            c == *config,
            c.wf(),
            n == s.len() == peaks@.len(),
            s == time_sorted(peaks@),
            i <= n,
            forall|k: int| 0 <= k < s.len() ==> valid_peak(#[trigger] s[k], c),
            forall|a: int, b: int|
                0 <= a < b < s.len() ==> (#[trigger] s[a]).time_bin <= (#[trigger] s[b]).time_bin,
            r@.len() == emissions_upto(s, i as int, c),
            emission_witness_ok(r@, s, c, wit),
            forall|k: int| 0 <= k < wit.len() ==> (#[trigger] wit[k]).0 < i,
        decreases n - i,
    {
        let ghost r_before = r@;
        let ghost wit_before = wit;
        let mut chunk = fingerprints_for_anchor(&sorted, i, config, rng);
        let ghost chunk_view = chunk@;
        r.append(&mut chunk);
        proof {
            assert(r@ == r_before + chunk_view);
            let ts = choose|ts: Seq<int>| anchor_emission_witness(chunk_view, s, i as int, c, ts);
            wit = wit_before + Seq::new(ts.len(), |m: int| (i as int, ts[m]));
            assert forall|k1: int, k2: int| 0 <= k1 < k2 < wit.len() implies wit[k1]
                != wit[k2] by {
                if k1 >= wit_before.len() {
                    assert(ts[k1 - wit_before.len()] != ts[k2 - wit_before.len()]);
                } else if k2 >= wit_before.len() {
                    assert(wit[k1].0 < i && wit[k2].0 == i);
                }
            }
            assert forall|k: int| 0 <= k < r@.len() implies {
                let p = #[trigger] wit[k];
                &&& target_ok(s, p.0, p.1, c)
                &&& r@[k].0 == spec_fingerprint(s[p.0], s[p.1], c)
                &&& r@[k].1 == spec_time_ms(s[p.0], c)
            } by {
                if k < r_before.len() {
                    assert(r@[k] == r_before[k]);
                    assert(wit[k] == wit_before[k]);
                } else {
                    assert(r@[k] == chunk_view[k - r_before.len()]);
                    assert(wit[k] == (i as int, ts[k - r_before.len()]));
                }
            }
        }
        i += 1;
    }
    proof {
        assert(emission_witness_ok(r@, s, c, wit));
    }
    r
}

} // verus!
