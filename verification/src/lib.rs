//! Landmark-based acoustic fingerprinting: spectral peaks are paired into
//! time-frequency landmarks, stored in an inverted index, and an unknown
//! clip is recognized by voting over `(song, alignment-offset)` pairs.
use vstd::prelude::*;

pub mod codec;
pub mod db;
pub mod error;
pub mod fingerprint;
pub mod peaks;
pub mod sampling;
pub mod spectrogram;

use crate::db::{posting_total, spec_insert_all, FingerprintDB, SongMetaData};
use crate::fingerprint::{valid_emission, Fingerprint, NUM_TARGET_PEAKS};
use crate::peaks::{
    all_kept_peaks, extract_peaks, lemma_all_kept_peaks_props, valid_peak, MAX_PEAKS_PER_FRAME,
};
use crate::spectrogram::Spectrogram;

verus! {

/// The peaks of a well-formed spectrogram are valid for its configuration:
/// their bins are in range and their derived times fit the pipeline's
/// integer arithmetic.
proof fn lemma_spectrogram_peaks_valid(sg: Spectrogram)
    requires
        sg.wf(),
        sg.frames().len() <= usize::MAX,
    ensures
        forall|i: int|
            0 <= i < all_kept_peaks(sg.frames(), sg.frames().len() as int).len() ==> valid_peak(
                #[trigger] all_kept_peaks(sg.frames(), sg.frames().len() as int)[i],
                sg.cfg(),
            ),
        all_kept_peaks(sg.frames(), sg.frames().len() as int).len() <= MAX_PEAKS_PER_FRAME
            * sg.frames().len(),
{
    let frames = sg.frames();
    let t = frames.len() as int;
    lemma_all_kept_peaks_props(frames, t);
    assert forall|i: int| 0 <= i < all_kept_peaks(frames, t).len() implies valid_peak(
        #[trigger] all_kept_peaks(frames, t)[i],
        sg.cfg(),
    ) by {
        let p = all_kept_peaks(frames, t)[i];
        assert(p.freq_bin < frames[p.time_bin as int].len());
        assert(p.time_bin < t);
        assert(p.time_bin * sg.cfg().stride * 1000 <= frames.len() * sg.cfg().stride * 1000)
            by (nonlinear_arith)
            requires
                0 <= p.time_bin < frames.len(),
                sg.cfg().stride >= 1,
        ;
        vstd::arithmetic::div_mod::lemma_div_is_ordered(
            p.time_bin * sg.cfg().stride * 1000,
            frames.len() * sg.cfg().stride * 1000,
            sg.cfg().sample_rate as int,
        );
    }
}

/// Analyzes one clip into the database: its spectrogram's peaks are turned
/// into fingerprints, registered under a fresh song id — the catalog size,
/// so ids stay dense and insertion-ordered — and the title joins the
/// catalog. Returns the assigned id.
pub fn analyze_song(
    db: &mut FingerprintDB,
    title: String,
    spectrogram: &Spectrogram,
    rng: &mut fastrand::Rng,
) -> (song_id: u32)
    requires
        old(db).wf(),
        spectrogram.wf(),
        old(db).songs_view().len() < u32::MAX,
        posting_total(old(db).entries()) + NUM_TARGET_PEAKS * MAX_PEAKS_PER_FRAME
            * spectrogram.frames().len() <= usize::MAX,
    ensures
        final(db).wf(),
        song_id == old(db).songs_view().len(),
        final(db).songs_view() == old(db).songs_view().push((song_id, title@)),
        exists|fps: Seq<(Fingerprint, u32)>|
            valid_emission(
                fps,
                all_kept_peaks(spectrogram.frames(), spectrogram.frames().len() as int),
                spectrogram.cfg(),
            ) && final(db).entries() == spec_insert_all(old(db).entries(), fps, song_id),
{
    let ghost frames = spectrogram.frames();
    let num_frames = spectrogram.num_frames();
    proof {
        assert(frames.len() == num_frames);
        lemma_spectrogram_peaks_valid(*spectrogram);
    }
    let peaks = extract_peaks(spectrogram);
    proof {
        assert(NUM_TARGET_PEAKS * peaks@.len() <= NUM_TARGET_PEAKS * MAX_PEAKS_PER_FRAME
            * frames.len()) by (nonlinear_arith)
            requires
                peaks@.len() <= MAX_PEAKS_PER_FRAME * frames.len(),
                NUM_TARGET_PEAKS >= 0,
        ;
    }
    let song_id = db.songs.len() as u32;
    let metadata = SongMetaData { song_id, title };
    db.add_song(metadata, &peaks, spectrogram.config(), rng);
    song_id
}

} // verus!
