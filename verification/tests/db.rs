use audio_fingerprint::analyze_song;
use audio_fingerprint::db::{FingerprintDB, MatchResult, SongMetaData};
use audio_fingerprint::error::FingerprintError;
use audio_fingerprint::fingerprint::Fingerprint;
use audio_fingerprint::peaks::Peak;
use audio_fingerprint::spectrogram::SpectrogramConfig;

fn default_config() -> SpectrogramConfig {
    SpectrogramConfig { window_size: 1024, stride: 512, sample_rate: 48000 }
}

#[test]
fn new_database_is_empty() {
    let db = FingerprintDB::new();
    assert_eq!(db.database.len(), 0);
    assert_eq!(db.songs.len(), 0);
    assert_eq!(db.total_fingerprints(), 0);
}

#[test]
fn empty_database_recognizes_nothing() {
    // No match is an absent result, not an error, and an empty query does
    // not divide by zero.
    let db = FingerprintDB::new();
    let c = default_config();
    let mut rng = fastrand::Rng::with_seed(1);
    let peaks: Vec<Peak> = vec![
        Peak::new(0, 46, 100),
        Peak::new(10, 80, 90),
        Peak::new(20, 90, 80),
    ];
    assert_eq!(db.recognize_song(&peaks, &c, &mut rng), None);
    let no_peaks: Vec<Peak> = Vec::new();
    assert_eq!(db.recognize_song(&no_peaks, &c, &mut rng), None);
}

#[test]
fn votes_concentrate_on_one_alignment() {
    let mut db = FingerprintDB::new();
    let fp = Fingerprint { freq1: 100, freq2: 200, time_delta: 70 };
    let other = Fingerprint { freq1: 100, freq2: 300, time_delta: 90 };
    // Song 0 saw `fp` at 10 ms and at 30 ms, and `other` at 50 ms.
    db.insert_fingerprints(&vec![(fp, 10), (fp, 30), (other, 50)], 0);
    db.songs.push(SongMetaData { song_id: 0, title: String::from("a") });
    assert_eq!(db.total_fingerprints(), 3);

    // The query sees `fp` at 0 ms and again at 20 ms: alignment 10 ms gets
    // two votes (10-0 and 30-20), the others one each.
    let query = vec![(fp, 0u32), (fp, 20u32)];
    let m = db.match_fingerprints(&query).expect("a winner");
    assert_eq!(m.song_id, 0);
    assert_eq!(m.time_offset, 10);
    assert_eq!(m.votes, 2);
    assert_eq!(m.total_query_fingerprints, 2);

    // A query key the index has never seen casts no vote.
    let unseen = Fingerprint { freq1: 1, freq2: 2, time_delta: 55 };
    assert_eq!(db.match_fingerprints(&vec![(unseen, 0u32)]), None);
}

#[test]
fn negative_alignment_is_tolerated() {
    let mut db = FingerprintDB::new();
    let fp = Fingerprint { freq1: 100, freq2: 200, time_delta: 70 };
    db.insert_fingerprints(&vec![(fp, 10)], 0);
    db.songs.push(SongMetaData { song_id: 0, title: String::from("a") });
    // The query saw the landmark at 25 ms: the database offset lies 15 ms
    // before it.
    let m = db.match_fingerprints(&vec![(fp, 25u32)]).expect("a winner");
    assert_eq!(m.time_offset, -15);
    assert_eq!(m.votes, 1);
}

#[test]
fn saved_image_has_the_documented_layout() {
    let mut db = FingerprintDB::new();
    let fp = Fingerprint { freq1: 1, freq2: 2, time_delta: 3 };
    db.insert_fingerprints(&vec![(fp, 10)], 0);
    db.songs.push(SongMetaData { song_id: 0, title: String::from("AB") });

    let mut expected: Vec<u8> = Vec::new();
    expected.extend_from_slice(&1u64.to_le_bytes()); // entry count
    expected.extend_from_slice(&1u32.to_le_bytes()); // freq1
    expected.extend_from_slice(&2u32.to_le_bytes()); // freq2
    expected.extend_from_slice(&3u32.to_le_bytes()); // time_delta
    expected.extend_from_slice(&1u64.to_le_bytes()); // posting count
    expected.extend_from_slice(&0u32.to_le_bytes()); // song id
    expected.extend_from_slice(&10u32.to_le_bytes()); // time offset
    expected.extend_from_slice(&1u64.to_le_bytes()); // song count
    expected.extend_from_slice(&0u32.to_le_bytes()); // song id
    expected.extend_from_slice(&2u64.to_le_bytes()); // title byte length
    expected.extend_from_slice(b"AB");

    assert_eq!(db.save(), expected);
}

#[test]
fn save_then_load_reproduces_the_database() {
    let c = default_config();
    let mut db = FingerprintDB::new();
    let mut rng = fastrand::Rng::with_seed(5);
    let peaks_a: Vec<Peak> = (0..30).map(|t| Peak::new(6 * t, 40 + t, 50)).collect();
    let peaks_b: Vec<Peak> = (0..30).map(|t| Peak::new(6 * t, 90 + t, 50)).collect();
    db.add_song(
        SongMetaData { song_id: 0, title: String::from("première") },
        &peaks_a,
        &c,
        &mut rng,
    );
    db.add_song(
        SongMetaData { song_id: 1, title: String::from("zweite") },
        &peaks_b,
        &c,
        &mut rng,
    );
    assert!(db.total_fingerprints() > 0);

    let bytes = db.save();
    let loaded = FingerprintDB::load(&bytes).expect("the image parses");
    assert_eq!(loaded.database, db.database);
    assert_eq!(loaded.songs, db.songs);
    assert_eq!(loaded.total_fingerprints(), db.total_fingerprints());
}

#[test]
fn corrupt_images_are_refused() {
    let mut db = FingerprintDB::new();
    let fp = Fingerprint { freq1: 1, freq2: 2, time_delta: 3 };
    db.insert_fingerprints(&vec![(fp, 10)], 0);
    db.songs.push(SongMetaData { song_id: 0, title: String::from("AB") });
    let bytes = db.save();

    // Too short for a header.
    assert_eq!(
        FingerprintDB::load(&vec![1, 2, 3]),
        Err(FingerprintError::MalformedDatabase)
    );
    // Truncated mid-way.
    let mut cut = bytes.clone();
    cut.pop();
    assert_eq!(FingerprintDB::load(&cut), Err(FingerprintError::MalformedDatabase));
    // A trailing byte is not consumed, so the image is refused.
    let mut long = bytes.clone();
    long.push(0);
    assert_eq!(FingerprintDB::load(&long), Err(FingerprintError::MalformedDatabase));
    // An ill-formed title is refused.
    let mut bad = bytes.clone();
    let n = bad.len();
    bad[n - 1] = 0xff;
    assert_eq!(FingerprintDB::load(&bad), Err(FingerprintError::MalformedDatabase));
}

#[test]
fn index_keys_stay_sorted_and_unique() {
    let mut db = FingerprintDB::new();
    let a = Fingerprint { freq1: 9, freq2: 9, time_delta: 60 };
    let b = Fingerprint { freq1: 1, freq2: 5, time_delta: 60 };
    let c = Fingerprint { freq1: 1, freq2: 5, time_delta: 55 };
    db.insert_fingerprints(&vec![(a, 1), (b, 2), (c, 3), (b, 4)], 0);
    let keys: Vec<Fingerprint> = db.database.iter().map(|e| e.0).collect();
    assert_eq!(keys, vec![c, b, a]);
    // The repeated key extended its posting list instead of a new entry.
    assert_eq!(db.database[1].1, vec![(0, 2), (0, 4)]);
    assert_eq!(db.total_fingerprints(), 4);
}

#[test]
fn out_of_order_song_ids_are_refused() {
    let mut db = FingerprintDB::new();
    let fp = Fingerprint { freq1: 1, freq2: 2, time_delta: 3 };
    db.insert_fingerprints(&vec![(fp, 10)], 0);
    db.songs.push(SongMetaData { song_id: 0, title: String::from("AB") });
    let mut bytes = db.save();
    // The song id field starts right after the index (8 + 20 + 8 bytes) and
    // the song count (8 bytes). An id that is not the song's position makes
    // the catalog non-dense, and the image is refused.
    bytes[44] = 1;
    assert_eq!(FingerprintDB::load(&bytes), Err(FingerprintError::MalformedDatabase));
}

#[test]
fn load_or_create_distinguishes_absent_from_corrupt() {
    // No image at all: a fresh, empty database.
    let fresh = FingerprintDB::load_or_create(&None).expect("an empty database");
    assert_eq!(fresh.database.len(), 0);
    assert_eq!(fresh.songs.len(), 0);

    // A present but corrupt image is an error, not silently a fresh start.
    assert_eq!(
        FingerprintDB::load_or_create(&Some(vec![9, 9, 9])),
        Err(FingerprintError::MalformedDatabase)
    );

    // A present, valid image loads.
    let empty_image = FingerprintDB::new().save();
    let back = FingerprintDB::load_or_create(&Some(empty_image)).expect("parses");
    assert_eq!(back.database.len(), 0);
}

#[test]
fn match_result_new_sets_fields() {
    let m = MatchResult::new(3, -40, 17, 60);
    assert_eq!(m.song_id, 3);
    assert_eq!(m.time_offset, -40);
    assert_eq!(m.votes, 17);
    assert_eq!(m.total_query_fingerprints, 60);
}

/// The transform of the end-to-end test: per window, forward FFT of the
/// samples and the order-preserving bit encoding of each magnitude.
fn transform_frames(samples: &[f32], c: &SpectrogramConfig) -> Vec<Vec<u32>> {
    let mut planner = rustfft::FftPlanner::<f32>::new();
    let fft = planner.plan_fft_forward(c.window_size);
    let n = (samples.len() - c.window_size) / c.stride + 1;
    let mut frames = Vec::new();
    for i in 0..n {
        let start = i * c.stride;
        let mut buf: Vec<rustfft::num_complex::Complex<f32>> = samples
            [start..start + c.window_size]
            .iter()
            .map(|&x| rustfft::num_complex::Complex::new(x, 0.0))
            .collect();
        fft.process(&mut buf);
        frames.push(buf.iter().map(|z| z.norm().to_bits()).collect());
    }
    frames
}

fn synthetic_samples() -> Vec<f32> {
    // Two strong sinusoidal components at distinct times, over a seeded
    // noise floor that makes every frame's spectrum distinct, so landmarks
    // pin the alignment down.
    let mut noise = fastrand::Rng::with_seed(99);
    let mut samples = Vec::new();
    for i in 0..144000usize {
        let t = i as f32 / 48000.0;
        let tone = if t < 1.5 {
            (2.0 * std::f32::consts::PI * 440.0 * t).sin()
        } else {
            (2.0 * std::f32::consts::PI * 880.0 * t).sin()
        };
        samples.push(0.4 * tone + (noise.f32() * 2.0 - 1.0));
    }
    samples
}

#[test]
fn shifted_clip_of_an_analyzed_song_is_recognized() {
    let c = default_config();
    let samples = synthetic_samples();
    let frames = transform_frames(&samples, &c);
    let sg = audio_fingerprint::spectrogram::compute_spectrogram(frames, &c);

    let mut db = FingerprintDB::new();
    let mut rng = fastrand::Rng::with_seed(12);
    let song_id = analyze_song(&mut db, String::from("two tones"), &sg, &mut rng);
    assert_eq!(song_id, 0);
    assert!(db.total_fingerprints() > 0);

    // Query with a sub-segment shifted by exactly 100 strides: 51200
    // samples, 1066.6 ms.
    let shift = 100 * c.stride;
    let query_samples = &samples[shift..shift + 72000];
    let qframes = transform_frames(query_samples, &c);
    let qsg = audio_fingerprint::spectrogram::compute_spectrogram(qframes, &c);
    let qpeaks = audio_fingerprint::peaks::extract_peaks(&qsg);
    let m = db.recognize_song(&qpeaks, &c, &mut rng).expect("the song is recognized");

    assert_eq!(m.song_id, 0);
    assert!(m.votes > 0);
    let confidence = m.votes as f32 / m.total_query_fingerprints as f32;
    assert!(confidence > 0.0);
    // The winning alignment equals the shift within one time bin
    // (512 / 48000 s, about 11 ms).
    let shift_ms = (shift as i64) * 1000 / 48000;
    assert!(
        (m.time_offset - shift_ms).abs() <= 11,
        "alignment {} not within a bin of {}",
        m.time_offset,
        shift_ms
    );
}
