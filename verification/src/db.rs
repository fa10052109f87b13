//! The fingerprint index: an inverted map from fingerprint to the places it
//! was seen, a song catalog, and the voting procedure of recognition.
//!
//! The index is kept as a list of entries strictly sorted by key, so keys
//! are unique by construction and the map a database holds is uniquely
//! determined by its contents.
use vstd::prelude::*;

use crate::fingerprint::{
    generate_fingerprints, lemma_emissions_upto_bound, time_sorted, valid_emission, Fingerprint,
    NUM_TARGET_PEAKS,
};
use crate::peaks::{valid_peak, Peak};
use crate::spectrogram::SpectrogramConfig;

verus! {

/// One posting: the song a fingerprint occurrence belongs to and the
/// anchor's absolute time offset within that song, in milliseconds.
pub type Posting = (u32, u32);

/// A catalog entry. Song ids are dense and insertion-ordered: the id is the
/// catalog size at insertion time.
#[derive(Debug, PartialEq, Eq)]
pub struct SongMetaData {
    pub song_id: u32,
    pub title: String,
}

/// Strict key order of the index: lexicographic on
/// `(freq1, freq2, time_delta)`.
pub open spec fn fp_lt(a: Fingerprint, b: Fingerprint) -> bool {
    ||| a.freq1 < b.freq1
    ||| (a.freq1 == b.freq1 && a.freq2 < b.freq2)
    ||| (a.freq1 == b.freq1 && a.freq2 == b.freq2 && a.time_delta < b.time_delta)
}

/// Decides the strict key order.
pub(crate) fn fp_less(a: &Fingerprint, b: &Fingerprint) -> (r: bool)
    ensures
        r == fp_lt(*a, *b),
{
    a.freq1 < b.freq1 || (a.freq1 == b.freq1 && (a.freq2 < b.freq2 || (a.freq2 == b.freq2
        && a.time_delta < b.time_delta)))
}

/// One index entry at the specification level: a key and its posting list.
pub type SpecEntry = (Fingerprint, Seq<Posting>);

/// Keys strictly ascending: every key occurs at most once.
pub open spec fn entries_sorted(entries: Seq<SpecEntry>) -> bool {
    forall|a: int, b: int|
        0 <= a < b < entries.len() ==> fp_lt(
            (#[trigger] entries[a]).0,
            (#[trigger] entries[b]).0,
        )
}

/// Whether some entry holds this key.
pub open spec fn has_key(entries: Seq<SpecEntry>, fp: Fingerprint) -> bool {
    exists|k: int| 0 <= k < entries.len() && (#[trigger] entries[k]).0 == fp
}

/// The index of the entry holding this key.
pub open spec fn key_index(entries: Seq<SpecEntry>, fp: Fingerprint) -> int {
    choose|k: int| 0 <= k < entries.len() && (#[trigger] entries[k]).0 == fp
}

/// The posting list under a key; empty when the key is absent.
pub open spec fn spec_lookup(entries: Seq<SpecEntry>, fp: Fingerprint) -> Seq<Posting> {
    if has_key(entries, fp) {
        entries[key_index(entries, fp)].1
    } else {
        Seq::empty()
    }
}

/// Total number of postings over all entries.
pub open spec fn posting_total(entries: Seq<SpecEntry>) -> nat
    decreases entries.len(),
{
    if entries.len() == 0 {
        0
    } else {
        posting_total(entries.drop_last()) + entries.last().1.len()
    }
}

/// Appending `(sid, offset)` to the posting list under `fp`, creating the
/// entry at its sorted position when the key is absent.
pub open spec fn spec_insert(
    entries: Seq<SpecEntry>,
    fp: Fingerprint,
    posting: Posting,
) -> Seq<SpecEntry>
    decreases entries.len(),
{
    if entries.len() == 0 {
        seq![(fp, seq![posting])]
    } else if fp_lt(fp, entries[0].0) {
        seq![(fp, seq![posting])] + entries
    } else if entries[0].0 == fp {
        seq![(entries[0].0, entries[0].1.push(posting))] + entries.drop_first()
    } else {
        seq![entries[0]] + spec_insert(entries.drop_first(), fp, posting)
    }
}

/// Inserting every fingerprint of `fps` in order, each as a posting
/// `(sid, its time offset)`.
pub open spec fn spec_insert_all(
    entries: Seq<SpecEntry>,
    fps: Seq<(Fingerprint, u32)>,
    sid: u32,
) -> Seq<SpecEntry>
    decreases fps.len(),
{
    if fps.len() == 0 {
        entries
    } else {
        spec_insert_all(spec_insert(entries, fps[0].0, (sid, fps[0].1)), fps.drop_first(), sid)
    }
}

/// Votes that one posting list contributes to `(song, align)` for a query
/// entry seen at offset `qoff`: the number of its postings of that song
/// whose offset lies exactly `align` ms after `qoff`.
pub open spec fn matches_in(postings: Seq<Posting>, song: u32, align: int, qoff: u32) -> nat
    decreases postings.len(),
{
    if postings.len() == 0 {
        0
    } else {
        matches_in(postings.drop_last(), song, align, qoff) + if postings.last().0 == song
            && postings.last().1 - qoff == align {
            1nat
        } else {
            0nat
        }
    }
}

/// Total votes that the query `q` casts for `(song, align)` against the
/// index `entries`.
pub open spec fn vote_count(
    entries: Seq<SpecEntry>,
    q: Seq<(Fingerprint, u32)>,
    song: u32,
    align: int,
) -> nat
    decreases q.len(),
{
    if q.len() == 0 {
        0
    } else {
        vote_count(entries, q.drop_last(), song, align) + matches_in(
            spec_lookup(entries, q.last().0),
            song,
            align,
            q.last().1,
        )
    }
}

/// The outcome of one recognition call.
///
/// The confidence of the match is the exact ratio
/// `votes / total_query_fingerprints`; it is reported as that pair rather
/// than rounded.
#[derive(Debug, Clone, Copy, PartialEq, Eq, Structural)]
pub struct MatchResult {
    pub song_id: u32,
    /// The winning alignment offset in milliseconds: database offset minus
    /// query offset, possibly negative.
    pub time_offset: i64,
    pub votes: u64,
    pub total_query_fingerprints: usize,
}

impl MatchResult {
    pub fn new(song_id: u32, time_offset: i64, votes: u64, total_query_fingerprints: usize) -> (r:
        MatchResult)
        ensures
            r == (MatchResult { song_id, time_offset, votes, total_query_fingerprints }),
    {
        MatchResult { song_id, time_offset, votes, total_query_fingerprints }
    }
}

/// What matching promises about its result: `None` exactly when no vote at
/// all was cast, and otherwise a winner that no `(song, alignment)` pair
/// outvotes.
pub open spec fn match_result_ok(
    entries: Seq<SpecEntry>,
    q: Seq<(Fingerprint, u32)>,
    r: Option<MatchResult>,
) -> bool {
    &&& (r is None <==> (forall|song: u32, align: int| vote_count(entries, q, song, align) == 0))
    &&& (r matches Some(m) ==> {
        &&& vote_count(entries, q, m.song_id, m.time_offset as int) == m.votes
        &&& m.votes >= 1
        &&& forall|song: u32, align: int| vote_count(entries, q, song, align) <= m.votes
        &&& m.total_query_fingerprints == q.len()
    })
}

/// The catalog a vector of song entries stands for.
pub open spec fn view_songs(songs: Seq<SongMetaData>) -> Seq<(u32, Seq<char>)> {
    songs.map_values(|m: SongMetaData| (m.song_id, m.title@))
}

/// The index a vector of entries stands for.
pub open spec fn view_entries(db: Seq<(Fingerprint, Vec<Posting>)>) -> Seq<SpecEntry> {
    db.map_values(|e: (Fingerprint, Vec<Posting>)| (e.0, e.1@))
}

/// The fingerprint database: the inverted index and the song catalog.
#[derive(Debug, PartialEq, Eq)]
pub struct FingerprintDB {
    pub database: Vec<(Fingerprint, Vec<Posting>)>,
    pub songs: Vec<SongMetaData>,
}

impl FingerprintDB {
    /// The index at the specification level.
    pub open spec fn entries(self) -> Seq<SpecEntry> {
        view_entries(self.database@)
    }

    /// The catalog at the specification level: `(song_id, title)` pairs.
    pub open spec fn songs_view(self) -> Seq<(u32, Seq<char>)> {
        view_songs(self.songs@)
    }

    /// Database invariant: index keys strictly sorted (hence unique), song
    /// ids dense and insertion-ordered, and few enough postings that their
    /// total count fits a machine word.
    pub open spec fn wf(self) -> bool {
        &&& entries_sorted(self.entries())
        &&& forall|i: int|
            0 <= i < self.songs_view().len() ==> (#[trigger] self.songs_view()[i]).0 == i
        &&& posting_total(self.entries()) <= usize::MAX
    }

    /// An empty database.
    pub fn new() -> (r: FingerprintDB)
        ensures
            r.wf(),
            r.entries() == Seq::<SpecEntry>::empty(),
            r.songs_view() == Seq::<(u32, Seq<char>)>::empty(),
    {
        let r = FingerprintDB { database: Vec::new(), songs: Vec::new() };
        proof {
            assert(r.entries() =~= Seq::<SpecEntry>::empty());
            assert(r.songs_view() =~= Seq::<(u32, Seq<char>)>::empty());
        }
        r
    }

    /// Looks a key up in the index.
    fn get_postings(&self, fp: &Fingerprint) -> (r: Option<&Vec<Posting>>)
        requires
            self.wf(),
        ensures
            r is Some <==> has_key(self.entries(), *fp),
            r matches Some(v) ==> v@ == spec_lookup(self.entries(), *fp),
    {
        let ghost entries = self.entries();
        let n = self.database.len();
        let mut i: usize = 0;
        while i < n
            invariant
                entries == self.entries(),
                self.wf(),
                n == entries.len(),
                i <= n,
                forall|k: int| 0 <= k < i ==> (#[trigger] entries[k]).0 != *fp,
            decreases n - i,
        {
            if self.database[i].0 == *fp {
                proof {
                    assert(entries[i as int].0 == *fp);
                    assert(has_key(entries, *fp));
                    let k = key_index(entries, *fp);
                    if k != i {
                        if k < i {
                            assert(fp_lt(entries[k].0, entries[i as int].0));
                        } else {
                            assert(fp_lt(entries[i as int].0, entries[k].0));
                        }
                        assert(false);
                    }
                }
                return Some(&self.database[i].1);
            }
            i += 1;
        }
        proof {
            if has_key(entries, *fp) {
                let k = key_index(entries, *fp);
                assert(entries[k].0 == *fp);
                assert(false);
            }
        }
        None
    }

    /// The total number of stored fingerprint occurrences, computed on
    /// demand as the sum of all posting list lengths.
    pub fn total_fingerprints(&self) -> (r: usize)
        requires
            self.wf(),
        ensures
            r == posting_total(self.entries()),
    {
        let ghost entries = self.entries();
        let n = self.database.len();
        let mut sum: usize = 0;
        let mut i: usize = 0;
        while i < n
            invariant
                entries == self.entries(),
                self.wf(),
                n == entries.len(),
                i <= n,
                sum == posting_total(entries.take(i as int)),
            decreases n - i,
        {
            proof {
                lemma_posting_total_step(entries, i as int);
                lemma_posting_total_prefix_le(entries, i + 1);
            }
            sum = sum + self.database[i].1.len();
            i += 1;
        }
        proof {
            assert(entries.take(n as int) =~= entries);
        }
        sum
    }
}

/// Appends one posting under `fp`, splicing a fresh entry into the sorted
/// key order when the key is new.
fn insert_posting(db: &mut Vec<(Fingerprint, Vec<Posting>)>, fp: Fingerprint, posting: Posting)
    requires
        entries_sorted(view_entries(old(db)@)),
    ensures
        view_entries(final(db)@) == spec_insert(view_entries(old(db)@), fp, posting),
{
    let ghost entries = view_entries(db@);
    let n = db.len();
    let mut idx: usize = 0;
    while idx < n && fp_less(&db[idx].0, &fp)
        invariant
            entries == view_entries(db@),
            n == db@.len(),
            idx <= n,
            forall|k: int| 0 <= k < idx ==> fp_lt((#[trigger] entries[k]).0, fp),
        decreases n - idx,
    {
        idx += 1;
    }
    proof {
        lemma_spec_insert_at(entries, fp, posting, idx as int);
    }
    if idx < n && db[idx].0 == fp {
        let mut entry = db.remove(idx);
        entry.1.push(posting);
        db.insert(idx, entry);
        proof {
            assert(view_entries(db@) =~= entries.update(
                idx as int,
                (fp, entries[idx as int].1.push(posting)),
            ));
        }
    } else {
        let mut pv: Vec<Posting> = Vec::new();
        pv.push(posting);
        db.insert(idx, (fp, pv));
        proof {
            assert(pv@ =~= seq![posting]);
            assert(view_entries(db@) =~= entries.take(idx as int) + seq![(fp, seq![posting])]
                + entries.skip(idx as int));
        }
    }
}

/// Processing the fingerprints one more step.
proof fn lemma_insert_all_snoc(
    entries: Seq<SpecEntry>,
    fps: Seq<(Fingerprint, u32)>,
    x: (Fingerprint, u32),
    sid: u32,
)
    ensures
        spec_insert_all(entries, fps.push(x), sid) == spec_insert(
            spec_insert_all(entries, fps, sid),
            x.0,
            (sid, x.1),
        ),
    decreases fps.len(),
{
    let whole = fps.push(x);
    assert(whole.len() > 0);
    assert(spec_insert_all(entries, whole, sid) == spec_insert_all(
        spec_insert(entries, whole[0].0, (sid, whole[0].1)),
        whole.drop_first(),
        sid,
    ));
    if fps.len() == 0 {
        assert(whole[0] == x);
        assert(whole.drop_first() =~= Seq::<(Fingerprint, u32)>::empty());
        assert(spec_insert_all(spec_insert(entries, x.0, (sid, x.1)), whole.drop_first(), sid)
            == spec_insert(entries, x.0, (sid, x.1)));
        assert(spec_insert_all(entries, fps, sid) == entries);
    } else {
        assert(whole[0] == fps[0]);
        assert(whole.drop_first() =~= fps.drop_first().push(x));
        lemma_insert_all_snoc(spec_insert(entries, fps[0].0, (sid, fps[0].1)), fps.drop_first(), x, sid);
        assert(spec_insert_all(entries, fps, sid) == spec_insert_all(
            spec_insert(entries, fps[0].0, (sid, fps[0].1)),
            fps.drop_first(),
            sid,
        ));
    }
}

impl FingerprintDB {
    /// Registers every fingerprint of `fps` as a posting
    /// `(song_id, time offset)` in the index, in order.
    pub fn insert_fingerprints(&mut self, fps: &Vec<(Fingerprint, u32)>, song_id: u32)
        requires
            old(self).wf(),
            posting_total(old(self).entries()) + fps@.len() <= usize::MAX,
        ensures
            final(self).wf(),
            final(self).entries() == spec_insert_all(old(self).entries(), fps@, song_id),
            final(self).songs == old(self).songs,
            posting_total(final(self).entries()) == posting_total(old(self).entries())
                + fps@.len(),
    {
        let ghost entries0 = self.entries();
        let n = fps.len();
        let mut k: usize = 0;
        while k < n
            invariant
                n == fps@.len(),
                k <= n,
                entries_sorted(self.entries()),
                posting_total(self.entries()) == posting_total(entries0) + k,
                posting_total(entries0) + n <= usize::MAX,
                self.entries() == spec_insert_all(entries0, fps@.take(k as int), song_id),
                self.songs == old(self).songs,
                self.songs_view() == old(self).songs_view(),
            decreases n - k,
        {
            let ghost before = self.entries();
            let fp = fps[k].0;
            let off = fps[k].1;
            proof {
                lemma_spec_insert_props(before, fp, (song_id, off));
                assert(fps@.take(k + 1) =~= fps@.take(k as int).push(fps@[k as int]));
                lemma_insert_all_snoc(entries0, fps@.take(k as int), fps@[k as int], song_id);
            }
            insert_posting(&mut self.database, fp, (song_id, off));
            k += 1;
        }
        proof {
            assert(fps@.take(n as int) =~= fps@);
        }
    }

    /// Adds one song: its peaks are turned into fingerprints, each is
    /// registered under the song's id, and the song joins the catalog. The
    /// id must be the catalog size — ids are dense and never reused.
    pub fn add_song(
        &mut self,
        metadata: SongMetaData,
        peaks: &Vec<Peak>,
        config: &SpectrogramConfig,
        rng: &mut fastrand::Rng,
    )
        requires
            old(self).wf(),
            config.wf(),
            metadata.song_id == old(self).songs_view().len(),
            forall|k: int| 0 <= k < peaks@.len() ==> valid_peak(#[trigger] peaks@[k], *config),
            posting_total(old(self).entries()) + NUM_TARGET_PEAKS * peaks@.len() <= usize::MAX,
        ensures
            final(self).wf(),
            final(self).songs_view() == old(self).songs_view().push(
                (metadata.song_id, metadata.title@),
            ),
            exists|fps: Seq<(Fingerprint, u32)>|
                valid_emission(fps, peaks@, *config) && final(self).entries() == spec_insert_all(
                    old(self).entries(),
                    fps,
                    metadata.song_id,
                ),
    {
        let fps = generate_fingerprints(peaks, config, rng);
        proof {
            lemma_emissions_upto_bound(time_sorted(peaks@), peaks@.len() as int, *config);
        }
        self.insert_fingerprints(&fps, metadata.song_id);
        let ghost songs_before = self.songs_view();
        self.songs.push(metadata);
        proof {
            assert(self.songs_view() =~= songs_before.push((metadata.song_id, metadata.title@)));
        }
    }
}

/// One row of the vote table: a `(song, alignment)` pair and its vote count.
pub type VoteRow = (u32, i64, u64);

/// No `(song, alignment)` pair occurs twice in the vote table.
pub open spec fn votes_distinct(votes: Seq<VoteRow>) -> bool {
    forall|a: int, b: int|
        0 <= a < b < votes.len() ==> ((#[trigger] votes[a]).0, votes[a].1) != (
            (#[trigger] votes[b]).0,
            votes[b].1,
        )
}

/// The count the vote table records for `(song, align)`; zero when the pair
/// is absent.
pub open spec fn recorded(votes: Seq<VoteRow>, song: u32, align: i64) -> nat
    decreases votes.len(),
{
    if votes.len() == 0 {
        0
    } else if votes.last().0 == song && votes.last().1 == align {
        votes.last().2 as nat
    } else {
        recorded(votes.drop_last(), song, align)
    }
}

proof fn lemma_recorded_absent(votes: Seq<VoteRow>, song: u32, align: i64)
    requires
        forall|i: int|
            0 <= i < votes.len() ==> ((#[trigger] votes[i]).0, votes[i].1) != (song, align),
    ensures
        recorded(votes, song, align) == 0,
    decreases votes.len(),
{
    if votes.len() > 0 {
        lemma_recorded_absent(votes.drop_last(), song, align);
    }
}

proof fn lemma_recorded_entry(votes: Seq<VoteRow>, idx: int)
    requires
        votes_distinct(votes),
        0 <= idx < votes.len(),
    ensures
        recorded(votes, votes[idx].0, votes[idx].1) == votes[idx].2,
    decreases votes.len(),
{
    if idx == votes.len() - 1 {
    } else {
        assert(votes_distinct(votes.drop_last()));
        assert(votes.drop_last()[idx] == votes[idx]);
        lemma_recorded_entry(votes.drop_last(), idx);
        assert((votes.last().0, votes.last().1) != (votes[idx].0, votes[idx].1));
    }
}

proof fn lemma_recorded_update(votes: Seq<VoteRow>, idx: int, c: u64)
    requires
        votes_distinct(votes),
        0 <= idx < votes.len(),
    ensures
        ({
            let nv = votes.update(idx, (votes[idx].0, votes[idx].1, c));
            &&& votes_distinct(nv)
            &&& recorded(nv, votes[idx].0, votes[idx].1) == c
            &&& forall|s: u32, a: i64|
                (s, a) != (votes[idx].0, votes[idx].1) ==> recorded(nv, s, a) == recorded(
                    votes,
                    s,
                    a,
                )
        }),
    decreases votes.len(),
{
    let nv = votes.update(idx, (votes[idx].0, votes[idx].1, c));
    let s0 = votes[idx].0;
    let a0 = votes[idx].1;
    assert(forall|k: int| 0 <= k < votes.len() && k != idx ==> nv[k] == votes[k]);
    assert(forall|k: int|
        0 <= k < votes.len() ==> ((#[trigger] nv[k]).0, nv[k].1) == (votes[k].0, votes[k].1));
    if idx == votes.len() - 1 {
        assert(nv.drop_last() =~= votes.drop_last());
        assert(nv.last() == (s0, a0, c));
        assert(recorded(nv, s0, a0) == c);
        assert forall|s: u32, a: i64| (s, a) != (s0, a0) implies recorded(nv, s, a) == recorded(
            votes,
            s,
            a,
        ) by {
            assert(!(nv.last().0 == s && nv.last().1 == a));
            assert(!(votes.last().0 == s && votes.last().1 == a));
        }
    } else {
        assert(votes_distinct(votes.drop_last()));
        assert(votes.drop_last()[idx] == votes[idx]);
        lemma_recorded_update(votes.drop_last(), idx, c);
        assert(nv.drop_last() =~= votes.drop_last().update(idx, (s0, a0, c)));
        assert(nv.last() == votes.last());
        assert((votes.last().0, votes.last().1) != (s0, a0));
        assert(recorded(nv, s0, a0) == recorded(nv.drop_last(), s0, a0));
        assert(recorded(nv, s0, a0) == c);
        assert forall|s: u32, a: i64| (s, a) != (s0, a0) implies recorded(nv, s, a) == recorded(
            votes,
            s,
            a,
        ) by {
            if nv.last().0 == s && nv.last().1 == a {
            } else {
                assert(recorded(nv, s, a) == recorded(nv.drop_last(), s, a));
                assert(recorded(votes, s, a) == recorded(votes.drop_last(), s, a));
            }
        }
    }
}

proof fn lemma_recorded_cases(votes: Seq<VoteRow>, song: u32, align: i64)
    ensures
        recorded(votes, song, align) == 0 || exists|i: int|
            0 <= i < votes.len() && (#[trigger] votes[i]).0 == song && votes[i].1 == align
                && votes[i].2 == recorded(votes, song, align),
    decreases votes.len(),
{
    if votes.len() > 0 {
        if votes.last().0 == song && votes.last().1 == align {
            assert(votes[votes.len() - 1].0 == song && votes[votes.len() - 1].1 == align
                && votes[votes.len() - 1].2 == recorded(votes, song, align));
        } else {
            lemma_recorded_cases(votes.drop_last(), song, align);
            if recorded(votes, song, align) != 0 {
                let i = choose|i: int|
                    0 <= i < votes.drop_last().len() && (#[trigger] votes.drop_last()[i]).0
                        == song && votes.drop_last()[i].1 == align && votes.drop_last()[i].2
                        == recorded(votes.drop_last(), song, align);
                assert(votes[i] == votes.drop_last()[i]);
            }
        }
    }
}

/// Adds one vote for `(song, align)` to the table.
fn bump(votes: &mut Vec<VoteRow>, song: u32, align: i64, Ghost(cap): Ghost<nat>)
    requires
        votes_distinct(old(votes)@),
        forall|i: int| 0 <= i < old(votes)@.len() ==> (#[trigger] old(votes)@[i]).2 >= 1,
        recorded(old(votes)@, song, align) < cap <= u64::MAX,
    ensures
        votes_distinct(final(votes)@),
        forall|i: int| 0 <= i < final(votes)@.len() ==> (#[trigger] final(votes)@[i]).2 >= 1,
        recorded(final(votes)@, song, align) == recorded(old(votes)@, song, align) + 1,
        forall|s: u32, a: i64|
            (s, a) != (song, align) ==> recorded(final(votes)@, s, a) == recorded(
                old(votes)@,
                s,
                a,
            ),
{
    let ghost votes0 = votes@;
    let row = find_row(votes, song, align);
    match row {
        Some(i) => {
            proof {
                lemma_recorded_entry(votes0, i as int);
                assert(votes0[i as int].2 < cap);
                lemma_recorded_update(votes0, i as int, (votes0[i as int].2 + 1) as u64);
            }
            let c = votes[i].2;
            votes.set(i, (song, align, c + 1));
            proof {
                let nv = votes0.update(
                    i as int,
                    (votes0[i as int].0, votes0[i as int].1, (votes0[i as int].2 + 1) as u64),
                );
                assert((song, align) == (votes0[i as int].0, votes0[i as int].1));
                assert(votes@ =~= nv);
                assert(recorded(nv, votes0[i as int].0, votes0[i as int].1) == votes0[i
                    as int].2 + 1);
                assert(recorded(votes@, song, align) == recorded(votes0, song, align) + 1);
                assert(forall|k: int|
                    0 <= k < votes@.len() && k != i ==> votes@[k] == votes0[k]);
                assert forall|s: u32, a: i64| (s, a) != (song, align) implies recorded(
                    votes@,
                    s,
                    a,
                ) == recorded(votes0, s, a) by {
                    assert(recorded(nv, s, a) == recorded(votes0, s, a));
                }
            }
        },
        None => {
            proof {
                lemma_recorded_absent(votes0, song, align);
            }
            votes.push((song, align, 1));
            proof {
                assert(votes@.last() == (song, align, 1u64));
                assert(votes@.drop_last() =~= votes0);
                assert forall|s: u32, a: i64| (s, a) != (song, align) implies recorded(
                    votes@,
                    s,
                    a,
                ) == recorded(votes0, s, a) by {
                    assert(!(votes@.last().0 == s && votes@.last().1 == a));
                }
            }
        },
    }
}

/// Finds the row of a `(song, alignment)` pair, if the table has one.
fn find_row(votes: &Vec<VoteRow>, song: u32, align: i64) -> (r: Option<usize>)
    ensures
        r matches Some(i) ==> i < votes@.len() && votes@[i as int].0 == song && votes@[i as int].1
            == align,
        r is None ==> forall|k: int|
            0 <= k < votes@.len() ==> ((#[trigger] votes@[k]).0, votes@[k].1) != (song, align),
{
    let n = votes.len();
    let mut i: usize = 0;
    while i < n
        invariant
            n == votes@.len(),
            i <= n,
            forall|k: int| 0 <= k < i ==> ((#[trigger] votes@[k]).0, votes@[k].1) != (song, align),
        decreases n - i,
    {
        if votes[i].0 == song && votes[i].1 == align {
            return Some(i);
        }
        i += 1;
    }
    None
}

impl FingerprintDB {
    /// Votes every query fingerprint against the index: each posting found
    /// under a query key casts one vote for its song at the alignment
    /// `database offset - query offset`. Returns the best-supported
    /// `(song, alignment)` pair, or nothing when no vote at all was cast —
    /// an empty index or an empty query is a no-match, not an error.
    ///
    /// Among equally supported pairs the winner is unspecified.
    pub fn match_fingerprints(&self, query: &Vec<(Fingerprint, u32)>) -> (r: Option<MatchResult>)
        requires
            self.wf(),
            query@.len() * posting_total(self.entries()) <= u64::MAX,
        ensures
            match_result_ok(self.entries(), query@, r),
    {
        let ghost entries = self.entries();
        let ghost q = query@;
        let ghost total = posting_total(entries);
        let nq = query.len();
        let mut votes: Vec<VoteRow> = Vec::new();
        let mut k: usize = 0;
        while k < nq
            invariant
                entries == self.entries(),
                q == query@,
                total == posting_total(entries),
                self.wf(),
                nq == q.len(),
                k <= nq,
                q.len() * total <= u64::MAX,
                votes_distinct(votes@),
                forall|i: int| 0 <= i < votes@.len() ==> (#[trigger] votes@[i]).2 >= 1,
                forall|s: u32, a: i64|
                    recorded(votes@, s, a) == vote_count(entries, q.take(k as int), s, a as int),
            decreases nq - k,
        {
            let fp = query[k].0;
            let qoff = query[k].1;
            let ghost postings_spec = spec_lookup(entries, fp);
            match self.get_postings(&fp) {
                Some(postings) => {
                    let np = postings.len();
                    let mut j: usize = 0;
                    while j < np
                        invariant
                            entries == self.entries(),
                            q == query@,
                            total == posting_total(entries),
                            nq == q.len(),
                            k < nq,
                            q.len() * total <= u64::MAX,
                            np == postings@.len(),
                            postings@ == postings_spec,
                            postings_spec == spec_lookup(entries, fp),
                            fp == q[k as int].0,
                            qoff == q[k as int].1,
                            j <= np,
                            votes_distinct(votes@),
                            forall|i: int| 0 <= i < votes@.len() ==> (#[trigger] votes@[i]).2 >= 1,
                            forall|s: u32, a: i64|
                                recorded(votes@, s, a) == vote_count(entries, q.take(k as int), s, a as int)
                                    + matches_in(postings_spec.take(j as int), s, a as int, qoff),
                        decreases np - j,
                    {
                        let p = postings[j];
                        let align: i64 = (p.1 as i64) - (qoff as i64);
                        proof {
                            lemma_vote_count_le(entries, q.take(k as int), p.0, align as int);
                            lemma_lookup_le(entries, fp);
                            lemma_matches_le(postings_spec.take(j as int), p.0, align as int, qoff);
                            assert(q.take(k as int).len() == k);
                            assert(postings_spec.take(j as int).len() == j);
                            assert(j < total);
                            assert(k as int * total + total == (k + 1) * total) by (nonlinear_arith);
                            assert((k + 1) * total <= nq * total) by (nonlinear_arith)
                                requires
                                    0 <= k + 1 <= nq,
                                    total >= 0,
                            ;
                            assert(recorded(votes@, p.0, align) < (k + 1) * total);
                        }
                        bump(&mut votes, p.0, align, Ghost(((k + 1) * total) as nat));
                        proof {
                            assert(postings_spec.take(j + 1).drop_last() =~= postings_spec.take(
                                j as int,
                            ));
                            assert(postings_spec.take(j + 1).last() == postings_spec[j as int]);
                            assert forall|s: u32, a: i64| recorded(votes@, s, a) == vote_count(
                                entries,
                                q.take(k as int),
                                s,
                                a as int,
                            ) + matches_in(postings_spec.take(j + 1), s, a as int, qoff) by {
                                if (s, a) == (p.0, align) {
                                    assert(postings_spec[j as int].0 == s
                                        && postings_spec[j as int].1 - qoff == a as int);
                                } else {
                                    assert(!(postings_spec[j as int].0 == s
                                        && postings_spec[j as int].1 - qoff == a as int));
                                }
                            }
                        }
                        j += 1;
                    }
                    proof {
                        assert(postings_spec.take(np as int) =~= postings_spec);
                        assert(q.take(k + 1).drop_last() =~= q.take(k as int));
                        assert(q.take(k + 1).last() == q[k as int]);
                    }
                },
                None => {
                    proof {
                        assert(!has_key(entries, fp));
                        assert(postings_spec =~= Seq::<Posting>::empty());
                        assert(q.take(k + 1).drop_last() =~= q.take(k as int));
                        assert(q.take(k + 1).last() == q[k as int]);
                        assert(forall|s: u32, a: i64|
                            matches_in(postings_spec, s, a as int, qoff) == 0);
                    }
                },
            }
            k += 1;
        }
        proof {
            assert(q.take(nq as int) =~= q);
        }
        if votes.len() == 0 {
            proof {
                assert forall|song: u32, align: int| vote_count(entries, q, song, align) == 0 by {
                    if -(u32::MAX as int) <= align <= u32::MAX as int {
                        let a = align as i64;
                        assert(recorded(votes@, song, a) == vote_count(entries, q, song, a as int));
                        assert(recorded(votes@, song, a) == 0);
                    } else {
                        lemma_vote_count_range(entries, q, song, align);
                    }
                }
            }
            return None;
        }
        let nv = votes.len();
        let mut best: VoteRow = votes[0];
        let mut m: usize = 1;
        while m < nv
            invariant
                nv == votes@.len(),
                1 <= m <= nv,
                exists|idx: int| 0 <= idx < nv && votes@[idx] == best,
                forall|idx: int| 0 <= idx < m ==> (#[trigger] votes@[idx]).2 <= best.2,
            decreases nv - m,
        {
            if votes[m].2 > best.2 {
                best = votes[m];
                assert(votes@[m as int] == best);
            }
            m += 1;
        }
        proof {
            let bidx = choose|idx: int| 0 <= idx < nv && votes@[idx] == best;
            lemma_recorded_entry(votes@, bidx);
            assert(vote_count(entries, q, best.0, best.1 as int) == best.2);
            assert(best.2 >= 1);
            assert forall|song: u32, align: int| vote_count(entries, q, song, align)
                <= best.2 by {
                if -(u32::MAX as int) <= align <= u32::MAX as int {
                    let a = align as i64;
                    assert(recorded(votes@, song, a) == vote_count(entries, q, song, a as int));
                    lemma_recorded_cases(votes@, song, a);
                } else {
                    lemma_vote_count_range(entries, q, song, align);
                }
            }
        }
        Some(MatchResult::new(best.0, best.1, best.2, nq))
    }

    /// Generates fingerprints for the query peaks and matches them against
    /// the index. The fingerprints are drawn at random, so the promise holds
    /// of whatever query was generated: a valid emission whose matching
    /// outcome this result is.
    pub fn recognize_song(
        &self,
        peaks: &Vec<Peak>,
        config: &SpectrogramConfig,
        rng: &mut fastrand::Rng,
    ) -> (r: Option<MatchResult>)
        requires
            self.wf(),
            config.wf(),
            forall|k: int| 0 <= k < peaks@.len() ==> valid_peak(#[trigger] peaks@[k], *config),
            NUM_TARGET_PEAKS * peaks@.len() * posting_total(self.entries()) <= u64::MAX,
        ensures
            exists|q: Seq<(Fingerprint, u32)>|
                valid_emission(q, peaks@, *config) && match_result_ok(self.entries(), q, r),
    {
        let query = generate_fingerprints(peaks, config, rng);
        proof {
            lemma_emissions_upto_bound(time_sorted(peaks@), peaks@.len() as int, *config);
            assert(query@.len() <= NUM_TARGET_PEAKS * peaks@.len());
            assert(query@.len() * posting_total(self.entries()) <= NUM_TARGET_PEAKS * peaks@.len()
                * posting_total(self.entries())) by (nonlinear_arith)
                requires
                    query@.len() <= NUM_TARGET_PEAKS * peaks@.len(),
                    posting_total(self.entries()) >= 0,
            ;
        }
        let r = self.match_fingerprints(&query);
        proof {
            assert(valid_emission(query@, peaks@, *config) && match_result_ok(
                self.entries(),
                query@,
                r,
            ));
        }
        r
    }
}

/// Against an empty index no query casts any vote, whatever it holds.
pub proof fn lemma_empty_db_no_votes(q: Seq<(Fingerprint, u32)>, song: u32, align: int)
    ensures
        vote_count(Seq::<SpecEntry>::empty(), q, song, align) == 0,
    decreases q.len(),
{
    if q.len() > 0 {
        lemma_empty_db_no_votes(q.drop_last(), song, align);
        assert(!has_key(Seq::<SpecEntry>::empty(), q.last().0));
    }
}

/// Querying an empty database is a no-match, never an error: whatever the
/// query was — including one with no fingerprints at all — a matching
/// outcome against an empty index is the absent result.
pub proof fn lemma_no_match_on_empty(q: Seq<(Fingerprint, u32)>, r: Option<MatchResult>)
    requires
        match_result_ok(Seq::<SpecEntry>::empty(), q, r),
    ensures
        r is None,
{
    assert forall|song: u32, align: int| vote_count(
        Seq::<SpecEntry>::empty(),
        q,
        song,
        align,
    ) == 0 by {
        lemma_empty_db_no_votes(q, song, align);
    }
}

/// Each posting list matches at most once per posting.
proof fn lemma_matches_le(postings: Seq<Posting>, song: u32, align: int, qoff: u32)
    ensures
        matches_in(postings, song, align, qoff) <= postings.len(),
    decreases postings.len(),
{
    if postings.len() > 0 {
        lemma_matches_le(postings.drop_last(), song, align, qoff);
    }
}

/// Any single entry's posting list is no longer than the total.
proof fn lemma_entry_le(entries: Seq<SpecEntry>, k: int)
    requires
        0 <= k < entries.len(),
    ensures
        entries[k].1.len() <= posting_total(entries),
    decreases entries.len(),
{
    if k == entries.len() - 1 {
    } else {
        assert(entries.drop_last()[k] == entries[k]);
        lemma_entry_le(entries.drop_last(), k);
    }
}

proof fn lemma_lookup_le(entries: Seq<SpecEntry>, fp: Fingerprint)
    ensures
        spec_lookup(entries, fp).len() <= posting_total(entries),
{
    if has_key(entries, fp) {
        lemma_entry_le(entries, key_index(entries, fp));
    }
}

/// The query casts at most `|q| * posting_total` votes for any one pair.
proof fn lemma_vote_count_le(entries: Seq<SpecEntry>, q: Seq<(Fingerprint, u32)>, song: u32, align: int)
    ensures
        vote_count(entries, q, song, align) <= q.len() * posting_total(entries),
    decreases q.len(),
{
    if q.len() == 0 {
    } else {
        lemma_vote_count_le(entries, q.drop_last(), song, align);
        lemma_lookup_le(entries, q.last().0);
        lemma_matches_le(spec_lookup(entries, q.last().0), song, align, q.last().1);
        assert((q.len() - 1) * posting_total(entries) + posting_total(entries) == q.len()
            * posting_total(entries)) by (nonlinear_arith);
    }
}

/// An alignment that no pair of 32-bit offsets can produce receives no vote.
proof fn lemma_vote_count_range(
    entries: Seq<SpecEntry>,
    q: Seq<(Fingerprint, u32)>,
    song: u32,
    align: int,
)
    requires
        align < -(u32::MAX as int) || align > u32::MAX as int,
    ensures
        vote_count(entries, q, song, align) == 0,
    decreases q.len(),
{
    if q.len() > 0 {
        lemma_vote_count_range(entries, q.drop_last(), song, align);
        lemma_matches_range(spec_lookup(entries, q.last().0), song, align, q.last().1);
    }
}

proof fn lemma_matches_range(postings: Seq<Posting>, song: u32, align: int, qoff: u32)
    requires
        align < -(u32::MAX as int) || align > u32::MAX as int,
    ensures
        matches_in(postings, song, align, qoff) == 0,
    decreases postings.len(),
{
    if postings.len() > 0 {
        lemma_matches_range(postings.drop_last(), song, align, qoff);
    }
}

/// Key order facts used throughout: `fp_lt` is a strict total order.
proof fn lemma_fp_lt_connected(a: Fingerprint, b: Fingerprint)
    ensures
        a != b ==> fp_lt(a, b) || fp_lt(b, a),
        !(fp_lt(a, b) && fp_lt(b, a)),
        !fp_lt(a, a),
{
}

/// Where the insertion lands: at the position whose preceding keys are all
/// smaller, either extending the entry that already holds the key or
/// splicing a fresh entry in.
proof fn lemma_spec_insert_at(entries: Seq<SpecEntry>, fp: Fingerprint, p: Posting, pos: int)
    requires
        entries_sorted(entries),
        0 <= pos <= entries.len(),
        forall|k: int| 0 <= k < pos ==> fp_lt((#[trigger] entries[k]).0, fp),
        pos < entries.len() ==> !fp_lt(entries[pos].0, fp),
    ensures
        spec_insert(entries, fp, p) == if pos < entries.len() && entries[pos].0 == fp {
            entries.update(pos, (fp, entries[pos].1.push(p)))
        } else {
            entries.take(pos) + seq![(fp, seq![p])] + entries.skip(pos)
        },
    decreases entries.len(),
{
    if entries.len() == 0 {
        assert(spec_insert(entries, fp, p) =~= entries.take(0) + seq![(fp, seq![p])]
            + entries.skip(0));
    } else if pos == 0 {
        if fp_lt(fp, entries[0].0) {
            assert(spec_insert(entries, fp, p) =~= entries.take(0) + seq![(fp, seq![p])]
                + entries.skip(0));
        } else if entries[0].0 == fp {
            assert(spec_insert(entries, fp, p) =~= entries.update(
                0,
                (fp, entries[0].1.push(p)),
            ));
        } else {
            lemma_fp_lt_connected(entries[0].0, fp);
            assert(false);
        }
    } else {
        assert(fp_lt(entries[0].0, fp));
        assert(!fp_lt(fp, entries[0].0) && entries[0].0 != fp) by {
            lemma_fp_lt_connected(entries[0].0, fp);
        }
        let rest = entries.drop_first();
        assert(entries_sorted(rest)) by {
            assert(forall|a: int, b: int|
                0 <= a < b < rest.len() ==> fp_lt(
                    (#[trigger] rest[a]).0,
                    (#[trigger] rest[b]).0,
                ));
        }
        assert(forall|k: int| 0 <= k < pos - 1 ==> fp_lt((#[trigger] rest[k]).0, fp));
        lemma_spec_insert_at(rest, fp, p, pos - 1);
        assert(spec_insert(entries, fp, p) == seq![entries[0]] + spec_insert(rest, fp, p));
        if pos < entries.len() && entries[pos].0 == fp {
            assert(rest[pos - 1] == entries[pos]);
            assert(seq![entries[0]] + rest.update(pos - 1, (fp, rest[pos - 1].1.push(p)))
                =~= entries.update(pos, (fp, entries[pos].1.push(p))));
        } else {
            assert(seq![entries[0]] + (rest.take(pos - 1) + seq![(fp, seq![p])] + rest.skip(
                pos - 1,
            )) =~= entries.take(pos) + seq![(fp, seq![p])] + entries.skip(pos));
        }
    }
}

/// Inserting keeps the keys strictly sorted and adds exactly one posting.
proof fn lemma_spec_insert_props(entries: Seq<SpecEntry>, fp: Fingerprint, p: Posting)
    requires
        entries_sorted(entries),
    ensures
        entries_sorted(spec_insert(entries, fp, p)),
        posting_total(spec_insert(entries, fp, p)) == posting_total(entries) + 1,
    decreases entries.len(),
{
    let out = spec_insert(entries, fp, p);
    if entries.len() == 0 {
        assert(out =~= seq![(fp, seq![p])]);
        assert(out.drop_last() =~= Seq::<SpecEntry>::empty());
        assert(posting_total(out) == posting_total(out.drop_last()) + out.last().1.len());
        assert(out.last().1 =~= seq![p]);
    } else if fp_lt(fp, entries[0].0) {
        assert(out =~= seq![(fp, seq![p])] + entries);
        assert forall|a: int, b: int| 0 <= a < b < out.len() implies fp_lt(
            (#[trigger] out[a]).0,
            (#[trigger] out[b]).0,
        ) by {
            if a == 0 {
                if b > 1 {
                    assert(fp_lt(entries[0].0, entries[b - 1].0));
                }
            }
        }
        lemma_posting_total_prepend(entries, (fp, seq![p]));
    } else if entries[0].0 == fp {
        assert(out =~= seq![(entries[0].0, entries[0].1.push(p))] + entries.drop_first());
        assert(forall|k: int|
            0 <= k < out.len() ==> (#[trigger] out[k]).0 == entries[k].0);
        lemma_posting_total_head_push(entries, p);
    } else {
        lemma_fp_lt_connected(entries[0].0, fp);
        let rest = entries.drop_first();
        assert(entries_sorted(rest));
        lemma_spec_insert_props(rest, fp, p);
        let sub = spec_insert(rest, fp, p);
        assert(out =~= seq![entries[0]] + sub);
        assert forall|a: int, b: int| 0 <= a < b < out.len() implies fp_lt(
            (#[trigger] out[a]).0,
            (#[trigger] out[b]).0,
        ) by {
            if a == 0 {
                lemma_spec_insert_keys(rest, fp, p, b - 1);
            }
        }
        lemma_posting_total_prepend(sub, entries[0]);
        lemma_posting_total_prepend(rest, entries[0]);
        assert(seq![entries[0]] + rest =~= entries);
    }
}

/// Every key of the inserted index is either an old key or the new one, and
/// the head key only moves towards the new key.
proof fn lemma_spec_insert_keys(entries: Seq<SpecEntry>, fp: Fingerprint, p: Posting, k: int)
    requires
        0 <= k < spec_insert(entries, fp, p).len(),
    ensures
        spec_insert(entries, fp, p)[k].0 == fp || exists|m: int|
            0 <= m < entries.len() && (#[trigger] entries[m]).0 == spec_insert(entries, fp, p)[k].0,
    decreases entries.len(),
{
    let out = spec_insert(entries, fp, p);
    if entries.len() == 0 {
    } else if fp_lt(fp, entries[0].0) {
        if k > 0 {
            assert(out[k] == entries[k - 1]);
        }
    } else if entries[0].0 == fp {
        if k > 0 {
            assert(out[k] == entries.drop_first()[k - 1]);
            assert(entries[k] == entries.drop_first()[k - 1]);
        }
    } else {
        if k > 0 {
            let rest = entries.drop_first();
            lemma_spec_insert_keys(rest, fp, p, k - 1);
            assert(out[k] == spec_insert(rest, fp, p)[k - 1]);
            if spec_insert(rest, fp, p)[k - 1].0 != fp {
                let m = choose|m: int|
                    0 <= m < rest.len() && (#[trigger] rest[m]).0 == spec_insert(
                        rest,
                        fp,
                        p,
                    )[k - 1].0;
                assert(entries[m + 1] == rest[m]);
            }
        }
    }
}

pub(crate) proof fn lemma_posting_total_prepend(entries: Seq<SpecEntry>, e: SpecEntry)
    ensures
        posting_total(seq![e] + entries) == posting_total(entries) + e.1.len(),
    decreases entries.len(),
{
    let out = seq![e] + entries;
    assert(out.len() > 0);
    assert(posting_total(out) == posting_total(out.drop_last()) + out.last().1.len());
    if entries.len() == 0 {
        assert(out =~= seq![e]);
        assert(out.drop_last() =~= Seq::<SpecEntry>::empty());
        assert(posting_total(out.drop_last()) == 0);
        assert(out.last() == e);
    } else {
        assert(out.drop_last() =~= seq![e] + entries.drop_last());
        assert(out.last() == entries.last());
        lemma_posting_total_prepend(entries.drop_last(), e);
        assert(posting_total(entries) == posting_total(entries.drop_last())
            + entries.last().1.len());
    }
}

proof fn lemma_posting_total_head_push(entries: Seq<SpecEntry>, p: Posting)
    requires
        entries.len() > 0,
    ensures
        posting_total(seq![(entries[0].0, entries[0].1.push(p))] + entries.drop_first())
            == posting_total(entries) + 1,
{
    lemma_posting_total_prepend(entries.drop_first(), (entries[0].0, entries[0].1.push(p)));
    lemma_posting_total_prepend(entries.drop_first(), entries[0]);
    assert(seq![entries[0]] + entries.drop_first() =~= entries);
}

/// `posting_total` of a prefix grows by the next entry's list length.
proof fn lemma_posting_total_step(entries: Seq<SpecEntry>, i: int)
    requires
        0 <= i < entries.len(),
    ensures
        posting_total(entries.take(i + 1)) == posting_total(entries.take(i)) + entries[i].1.len(),
{
    assert(entries.take(i + 1).drop_last() =~= entries.take(i));
    assert(entries.take(i + 1).last() == entries[i]);
}

/// A prefix never holds more postings than the whole.
proof fn lemma_posting_total_prefix_le(entries: Seq<SpecEntry>, i: int)
    requires
        0 <= i <= entries.len(),
    ensures
        posting_total(entries.take(i)) <= posting_total(entries),
    decreases entries.len() - i,
{
    if i < entries.len() {
        lemma_posting_total_step(entries, i);
        lemma_posting_total_prefix_le(entries, i + 1);
    } else {
        assert(entries.take(i) =~= entries);
    }
}

} // verus!
