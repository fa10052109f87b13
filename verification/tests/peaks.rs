use audio_fingerprint::peaks::{extract_peaks, find_frequency_peaks, Peak};
use audio_fingerprint::spectrogram::{compute_spectrogram, num_windows, SpectrogramConfig};

fn default_config() -> SpectrogramConfig {
    SpectrogramConfig { window_size: 1024, stride: 512, sample_rate: 48000 }
}

#[test]
fn peak_conversion() {
    let p = Peak { time_bin: 150, freq_bin: 46, magnitude: 10 };

    let c = SpectrogramConfig { window_size: 1024, stride: 512, sample_rate: 44100 };

    let h = p.frequency_hz(&c);
    let t = p.time_ms(&c);
    // 46 * 44100 / 1024 = 1981.05... Hz, truncated to whole Hz.
    assert_eq!(h, 1981);
    // 150 * 512 / 44100 = 1.74149... s, reported in whole milliseconds.
    assert_eq!(t, 1741);
}

#[test]
fn bin_conversion_at_48k() {
    // window_size=1024, stride=512, sample_rate=48000: freq_bin 46 sits at
    // 2156.25 Hz and time_bin 150 at 1.6 s.
    let c = default_config();
    let p = Peak::new(150, 46, 1);
    assert_eq!(p.frequency_hz(&c), 2156);
    assert_eq!(p.time_ms(&c), 1600);

    // Both formulas scale linearly with their bin.
    let q = Peak::new(300, 92, 1);
    assert_eq!(q.frequency_hz(&c), 2 * 2156 + 0);
    assert_eq!(q.time_ms(&c), 3200);
}

#[test]
fn monotonic_frame_has_no_interior_peak() {
    // Strictly increasing magnitudes: no interior local maximum; only the
    // upper endpoint qualifies under the endpoint policy.
    let magnitudes: Vec<u32> = vec![1, 2, 3, 4, 5, 6, 7, 8];
    let peaks = find_frequency_peaks(&magnitudes, 0);
    assert_eq!(peaks.len(), 1);
    assert_eq!(peaks[0].freq_bin, 7);
    assert_eq!(peaks[0].magnitude, 8);

    // Strictly decreasing: only the lower endpoint.
    let magnitudes: Vec<u32> = vec![8, 7, 6, 5, 4];
    let peaks = find_frequency_peaks(&magnitudes, 3);
    assert_eq!(peaks.len(), 1);
    assert_eq!(peaks[0].freq_bin, 0);
    assert_eq!(peaks[0].time_bin, 3);
}

#[test]
fn tiny_frames_yield_no_peaks() {
    assert_eq!(find_frequency_peaks(&vec![], 0).len(), 0);
    assert_eq!(find_frequency_peaks(&vec![5], 0).len(), 0);
    assert_eq!(find_frequency_peaks(&vec![5, 9], 0).len(), 0);
}

#[test]
fn plateaus_are_not_peaks() {
    // Equal neighbours never qualify: the comparison is strict.
    let magnitudes: Vec<u32> = vec![1, 5, 5, 5, 1];
    assert_eq!(find_frequency_peaks(&magnitudes, 0).len(), 0);
}

#[test]
fn top_five_most_salient_kept_in_order() {
    // Seven separated local maxima of distinct heights: the five largest
    // are kept, most salient first.
    let magnitudes: Vec<u32> = vec![0, 10, 0, 40, 0, 20, 0, 70, 0, 50, 0, 30, 0, 60, 0];
    let peaks = find_frequency_peaks(&magnitudes, 2);
    assert_eq!(peaks.len(), 5);
    let mags: Vec<u32> = peaks.iter().map(|p| p.magnitude).collect();
    assert_eq!(mags, vec![70, 60, 50, 40, 30]);
    for p in &peaks {
        assert_eq!(p.time_bin, 2);
        assert_eq!(p.magnitude, magnitudes[p.freq_bin]);
    }
}

#[test]
fn salience_ties_break_towards_lower_bin() {
    let magnitudes: Vec<u32> = vec![0, 9, 0, 9, 0, 9, 0];
    let peaks = find_frequency_peaks(&magnitudes, 0);
    let bins: Vec<usize> = peaks.iter().map(|p| p.freq_bin).collect();
    assert_eq!(bins, vec![1, 3, 5]);
}

#[test]
fn num_windows_counts_whole_windows() {
    let c = default_config();
    assert_eq!(num_windows(1024, &c), Ok(1));
    assert_eq!(num_windows(1535, &c), Ok(1));
    assert_eq!(num_windows(1536, &c), Ok(2));
    assert_eq!(num_windows(48000, &c), Ok((48000 - 1024) / 512 + 1));
}

#[test]
fn undersized_input_is_an_error() {
    let c = default_config();
    assert_eq!(
        num_windows(1023, &c),
        Err(audio_fingerprint::error::FingerprintError::UndersizedInput)
    );
    assert_eq!(
        num_windows(0, &c),
        Err(audio_fingerprint::error::FingerprintError::UndersizedInput)
    );
}

#[test]
fn spectrogram_keeps_lower_half_of_each_frame() {
    let c = SpectrogramConfig { window_size: 8, stride: 4, sample_rate: 8000 };
    let frame0: Vec<u32> = vec![1, 2, 3, 4, 5, 6, 7, 8];
    let frame1: Vec<u32> = vec![10, 20, 30, 40, 50, 60, 70, 80];
    let sg = compute_spectrogram(vec![frame0, frame1], &c);
    assert_eq!(sg.num_frames(), 2);
    assert_eq!(sg.frame(0).as_slice(), &[1, 2, 3, 4]);
    assert_eq!(sg.frame(1).as_slice(), &[10, 20, 30, 40]);
}

#[test]
fn extract_peaks_walks_frames_in_order() {
    let c = SpectrogramConfig { window_size: 8, stride: 4, sample_rate: 8000 };
    // After halving, frame 0 is [0, 9, 0, 4]: one interior peak at bin 1,
    // one endpoint peak at bin 3. Frame 1 is [7, 1, 1, 1]: endpoint peak at
    // bin 0.
    let frame0: Vec<u32> = vec![0, 9, 0, 4, 0, 0, 0, 0];
    let frame1: Vec<u32> = vec![7, 1, 1, 1, 0, 0, 0, 0];
    let sg = compute_spectrogram(vec![frame0, frame1], &c);
    let peaks = extract_peaks(&sg);
    assert_eq!(peaks.len(), 3);
    assert_eq!((peaks[0].time_bin, peaks[0].freq_bin, peaks[0].magnitude), (0, 1, 9));
    assert_eq!((peaks[1].time_bin, peaks[1].freq_bin, peaks[1].magnitude), (0, 3, 4));
    assert_eq!((peaks[2].time_bin, peaks[2].freq_bin, peaks[2].magnitude), (1, 0, 7));
}
