use audio_fingerprint::fingerprint::{
    create_fingerprint, fingerprints_for_anchor, generate_fingerprints, Fingerprint,
};
use audio_fingerprint::peaks::Peak;
use audio_fingerprint::spectrogram::SpectrogramConfig;

fn default_config() -> SpectrogramConfig {
    SpectrogramConfig { window_size: 1024, stride: 512, sample_rate: 48000 }
}

#[test]
fn fingerprint_exact_value() {
    let c = default_config();
    let anchor = Peak::new(0, 46, 3);
    let target = Peak::new(10, 100, 5);
    let fp = create_fingerprint(&anchor, &target, &c);
    // 46 * 48000 / 1024 = 2156.25 Hz; 100 * 48000 / 1024 = 4687.5 Hz;
    // 10 * 512 * 1000 / 48000 = 106.6 ms.
    assert_eq!(fp, Fingerprint { freq1: 2156, freq2: 4687, time_delta: 106 });
}

#[test]
fn fingerprint_is_canonical() {
    // Swapping anchor and target changes neither the frequency order nor
    // the separation of the key.
    let c = default_config();
    let a = Peak::new(3, 100, 7);
    let b = Peak::new(40, 46, 9);
    let ab = create_fingerprint(&a, &b, &c);
    let ba = create_fingerprint(&b, &a, &c);
    assert_eq!(ab, ba);
    assert!(ab.freq1 <= ab.freq2);

    // Also when the anchor already has the lower frequency.
    let ab2 = create_fingerprint(&b, &a, &c);
    assert!(ab2.freq1 <= ab2.freq2);
}

#[test]
fn pairing_window_is_respected() {
    let c = default_config();
    // Anchor at frame 0, one target too close (10 ms), several usable ones,
    // and one past the window (2133 ms).
    let mut peaks: Vec<Peak> = Vec::new();
    peaks.push(Peak::new(0, 46, 100));
    peaks.push(Peak::new(1, 60, 90));
    for t in 0..10 {
        peaks.push(Peak::new(10 + 2 * t, 80 + t, 80));
    }
    peaks.push(Peak::new(200, 120, 70));
    let mut rng = fastrand::Rng::with_seed(7);
    let fps = generate_fingerprints(&peaks, &c, &mut rng);
    assert!(!fps.is_empty());
    for (fp, _off) in &fps {
        assert!(fp.time_delta >= 50, "time_delta {} below the window", fp.time_delta);
        assert!(fp.time_delta <= 2000, "time_delta {} past the window", fp.time_delta);
        assert!(fp.freq1 <= fp.freq2);
    }
}

#[test]
fn fan_out_is_bounded_per_anchor() {
    let c = default_config();
    // Anchor at frame 0 with ten usable targets: exactly five fingerprints
    // carry the anchor's time offset (0 ms), never more.
    let mut peaks: Vec<Peak> = Vec::new();
    peaks.push(Peak::new(0, 46, 100));
    for t in 0..10 {
        peaks.push(Peak::new(10 + 2 * t, 80 + t, 80));
    }
    let mut rng = fastrand::Rng::with_seed(11);
    let fps = generate_fingerprints(&peaks, &c, &mut rng);
    let with_anchor_offset = fps.iter().filter(|(_, off)| *off == 0).count();
    assert_eq!(with_anchor_offset, 5);
}

#[test]
fn anchor_takes_all_targets_when_fewer_than_five() {
    let c = default_config();
    // Time-ordered peak list: anchor at frame 0 and three usable targets.
    let peaks: Vec<Peak> = vec![
        Peak::new(0, 46, 100),
        Peak::new(10, 60, 90),
        Peak::new(20, 70, 80),
        Peak::new(30, 80, 70),
    ];
    let mut rng = fastrand::Rng::with_seed(3);
    let fps = fingerprints_for_anchor(&peaks, 0, &c, &mut rng);
    assert_eq!(fps.len(), 3);
    for (_, off) in &fps {
        assert_eq!(*off, 0);
    }
}

#[test]
fn near_duplicates_produce_no_fingerprint() {
    let c = default_config();
    // All pairs lie under 50 ms: nothing is emitted.
    let peaks: Vec<Peak> = vec![
        Peak::new(0, 46, 100),
        Peak::new(1, 60, 90),
        Peak::new(2, 70, 80),
        Peak::new(3, 80, 70),
    ];
    let mut rng = fastrand::Rng::with_seed(3);
    let fps = generate_fingerprints(&peaks, &c, &mut rng);
    assert!(fps.is_empty());
}
