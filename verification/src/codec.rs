//! The persistence codec: the whole database — index, catalog — as one
//! self-describing binary image, and the parser that reads it back.
//!
//! Layout, all integers little-endian: the entry count as 8 bytes, then per
//! entry its key as three 4-byte fields and its posting list as an 8-byte
//! count followed by 4+4 bytes per posting; then the song count as 8 bytes,
//! then per song its id as 4 bytes and its title as an 8-byte byte length
//! followed by the title's UTF-8 bytes. There is no schema versioning:
//! format changes are breaking.
use vstd::prelude::*;

use vstd::utf8::{decode_utf8, encode_utf8, valid_utf8};

use crate::db::{
    entries_sorted, fp_less, fp_lt, posting_total, view_entries, view_songs, FingerprintDB,
    Posting, SongMetaData, SpecEntry,
};
use crate::error::FingerprintError;
use crate::fingerprint::Fingerprint;

verus! {

/// The four little-endian bytes of a 32-bit value.
pub open spec fn enc_u32(v: u32) -> Seq<u8> {
    seq![
        (v & 0xff) as u8,
        ((v >> 8) & 0xff) as u8,
        ((v >> 16) & 0xff) as u8,
        ((v >> 24) & 0xff) as u8,
    ]
}

/// The eight little-endian bytes of a 64-bit value.
pub open spec fn enc_u64(v: u64) -> Seq<u8> {
    seq![
        (v & 0xff) as u8,
        ((v >> 8) & 0xff) as u8,
        ((v >> 16) & 0xff) as u8,
        ((v >> 24) & 0xff) as u8,
        ((v >> 32) & 0xff) as u8,
        ((v >> 40) & 0xff) as u8,
        ((v >> 48) & 0xff) as u8,
        ((v >> 56) & 0xff) as u8,
    ]
}

/// The 32-bit value whose little-endian bytes stand at `pos`.
pub open spec fn spec_r_u32(b: Seq<u8>, pos: int) -> u32 {
    (b[pos] as u32) | ((b[pos + 1] as u32) << 8) | ((b[pos + 2] as u32) << 16) | ((b[pos + 3]
        as u32) << 24)
}

/// The 64-bit value whose little-endian bytes stand at `pos`.
pub open spec fn spec_r_u64(b: Seq<u8>, pos: int) -> u64 {
    (b[pos] as u64) | ((b[pos + 1] as u64) << 8) | ((b[pos + 2] as u64) << 16) | ((b[pos + 3]
        as u64) << 24) | ((b[pos + 4] as u64) << 32) | ((b[pos + 5] as u64) << 40) | ((b[pos + 6]
        as u64) << 48) | ((b[pos + 7] as u64) << 56)
}

/// Reading back the four bytes of a 32-bit value yields the value.
pub proof fn lemma_r_u32_enc(b: Seq<u8>, pos: int, v: u32)
    requires
        0 <= pos,
        pos + 4 <= b.len(),
        b.subrange(pos, pos + 4) == enc_u32(v),
    ensures
        spec_r_u32(b, pos) == v,
{
    assert(b[pos] == enc_u32(v)[0]);
    assert(b[pos + 1] == enc_u32(v)[1]);
    assert(b[pos + 2] == enc_u32(v)[2]);
    assert(b[pos + 3] == enc_u32(v)[3]);
    assert((((v & 0xff) as u8) as u32) | ((((v >> 8) & 0xff) as u8) as u32) << 8 | ((((v >> 16)
        & 0xff) as u8) as u32) << 16 | ((((v >> 24) & 0xff) as u8) as u32) << 24 == v)
        by (bit_vector);
}

/// Reading back the eight bytes of a 64-bit value yields the value.
pub proof fn lemma_r_u64_enc(b: Seq<u8>, pos: int, v: u64)
    requires
        0 <= pos,
        pos + 8 <= b.len(),
        b.subrange(pos, pos + 8) == enc_u64(v),
    ensures
        spec_r_u64(b, pos) == v,
{
    assert(b[pos] == enc_u64(v)[0]);
    assert(b[pos + 1] == enc_u64(v)[1]);
    assert(b[pos + 2] == enc_u64(v)[2]);
    assert(b[pos + 3] == enc_u64(v)[3]);
    assert(b[pos + 4] == enc_u64(v)[4]);
    assert(b[pos + 5] == enc_u64(v)[5]);
    assert(b[pos + 6] == enc_u64(v)[6]);
    assert(b[pos + 7] == enc_u64(v)[7]);
    assert((((v & 0xff) as u8) as u64) | ((((v >> 8) & 0xff) as u8) as u64) << 8 | ((((v >> 16)
        & 0xff) as u8) as u64) << 16 | ((((v >> 24) & 0xff) as u8) as u64) << 24 | ((((v >> 32)
        & 0xff) as u8) as u64) << 32 | ((((v >> 40) & 0xff) as u8) as u64) << 40 | ((((v >> 48)
        & 0xff) as u8) as u64) << 48 | ((((v >> 56) & 0xff) as u8) as u64) << 56 == v)
        by (bit_vector);
}

/// Appends the four little-endian bytes of `v`.
fn push_u32(out: &mut Vec<u8>, v: u32)
    ensures
        final(out)@ == old(out)@ + enc_u32(v),
{
    out.push((v & 0xff) as u8);
    out.push(((v >> 8) & 0xff) as u8);
    out.push(((v >> 16) & 0xff) as u8);
    out.push(((v >> 24) & 0xff) as u8);
    assert(out@ =~= old(out)@ + enc_u32(v));
}

/// Appends the eight little-endian bytes of `v`.
fn push_u64(out: &mut Vec<u8>, v: u64)
    ensures
        final(out)@ == old(out)@ + enc_u64(v),
{
    out.push((v & 0xff) as u8);
    out.push(((v >> 8) & 0xff) as u8);
    out.push(((v >> 16) & 0xff) as u8);
    out.push(((v >> 24) & 0xff) as u8);
    out.push(((v >> 32) & 0xff) as u8);
    out.push(((v >> 40) & 0xff) as u8);
    out.push(((v >> 48) & 0xff) as u8);
    out.push(((v >> 56) & 0xff) as u8);
    assert(out@ =~= old(out)@ + enc_u64(v));
}

/// One posting: its song id, then its time offset.
pub open spec fn enc_posting(p: Posting) -> Seq<u8> {
    enc_u32(p.0) + enc_u32(p.1)
}

/// A posting list, in order.
pub open spec fn enc_postings(ps: Seq<Posting>) -> Seq<u8>
    decreases ps.len(),
{
    if ps.len() == 0 {
        Seq::empty()
    } else {
        enc_postings(ps.drop_last()) + enc_posting(ps.last())
    }
}

/// One index entry: its key, then its posting list behind a count.
pub open spec fn enc_entry(e: SpecEntry) -> Seq<u8> {
    enc_u32(e.0.freq1) + enc_u32(e.0.freq2) + enc_u32(e.0.time_delta) + enc_u64(e.1.len() as u64)
        + enc_postings(e.1)
}

/// The index entries, in order.
pub open spec fn enc_entries(es: Seq<SpecEntry>) -> Seq<u8>
    decreases es.len(),
{
    if es.len() == 0 {
        Seq::empty()
    } else {
        enc_entries(es.drop_last()) + enc_entry(es.last())
    }
}

/// One catalog entry: the song id, then the title's UTF-8 bytes behind
/// their byte count.
pub open spec fn enc_song(s: (u32, Seq<char>)) -> Seq<u8> {
    enc_u32(s.0) + enc_u64(encode_utf8(s.1).len() as u64) + encode_utf8(s.1)
}

/// The catalog, in order.
pub open spec fn enc_songs(songs: Seq<(u32, Seq<char>)>) -> Seq<u8>
    decreases songs.len(),
{
    if songs.len() == 0 {
        Seq::empty()
    } else {
        enc_songs(songs.drop_last()) + enc_song(songs.last())
    }
}

/// The whole database image.
pub open spec fn enc_db(es: Seq<SpecEntry>, songs: Seq<(u32, Seq<char>)>) -> Seq<u8> {
    enc_u64(es.len() as u64) + enc_entries(es) + enc_u64(songs.len() as u64) + enc_songs(songs)
}

impl FingerprintDB {
    /// Serializes the whole database — index, catalog — into one binary
    /// image, the exact byte sequence that `enc_db` describes. Writing it
    /// to storage, and overwriting what was there, is the caller's part.
    pub fn save(&self) -> (r: Vec<u8>)
        requires
            self.wf(),
        ensures
            r@ == enc_db(self.entries(), self.songs_view()),
    {
        let ghost es = self.entries();
        let ghost sv = self.songs_view();
        let mut out: Vec<u8> = Vec::new();
        let n = self.database.len();
        push_u64(&mut out, n as u64);
        proof {
            assert(out@ =~= enc_u64(n as u64) + enc_entries(es.take(0)));
        }
        let mut i: usize = 0;
        while i < n
            invariant
                es == self.entries(),
                sv == self.songs_view(),
                n == es.len(),
                i <= n,
                out@ == enc_u64(n as u64) + enc_entries(es.take(i as int)),
            decreases n - i,
        {
            let ghost entry_base = out@;
            let entry = &self.database[i];
            push_u32(&mut out, entry.0.freq1);
            push_u32(&mut out, entry.0.freq2);
            push_u32(&mut out, entry.0.time_delta);
            let np = entry.1.len();
            push_u64(&mut out, np as u64);
            proof {
                assert(es[i as int] == (self.database@[i as int].0, self.database@[i as int].1@));
                assert(out@ =~= entry_base + enc_u32(es[i as int].0.freq1) + enc_u32(
                    es[i as int].0.freq2,
                ) + enc_u32(es[i as int].0.time_delta) + enc_u64(es[i as int].1.len() as u64)
                    + enc_postings(es[i as int].1.take(0)));
            }
            let ghost postings_base = out@;
            let mut j: usize = 0;
            while j < np
                invariant
                    es == self.entries(),
                    i < es.len(),
                    np == es[i as int].1.len(),
                    j <= np,
                    es[i as int] == (self.database@[i as int].0, self.database@[i as int].1@),
                    out@ == postings_base + enc_postings(es[i as int].1.take(j as int)),
                decreases np - j,
            {
                let p = self.database[i].1[j];
                push_u32(&mut out, p.0);
                push_u32(&mut out, p.1);
                proof {
                    let ps = es[i as int].1;
                    assert(ps.take(j + 1).drop_last() =~= ps.take(j as int));
                    assert(ps.take(j + 1).last() == ps[j as int]);
                    assert(out@ =~= postings_base + enc_postings(ps.take(j + 1)));
                }
                j += 1;
            }
            proof {
                let ps = es[i as int].1;
                assert(ps.take(np as int) =~= ps);
                assert(out@ =~= entry_base + enc_entry(es[i as int]));
                assert(es.take(i + 1).drop_last() =~= es.take(i as int));
                assert(es.take(i + 1).last() == es[i as int]);
                assert(out@ =~= enc_u64(n as u64) + enc_entries(es.take(i + 1)));
            }
            i += 1;
        }
        proof {
            assert(es.take(n as int) =~= es);
        }
        let ns = self.songs.len();
        push_u64(&mut out, ns as u64);
        proof {
            assert(out@ =~= enc_u64(n as u64) + enc_entries(es) + enc_u64(ns as u64) + enc_songs(
                sv.take(0),
            ));
        }
        let ghost songs_base = out@;
        let mut i: usize = 0;
        while i < ns
            invariant
                sv == self.songs_view(),
                ns == sv.len(),
                i <= ns,
                out@ == songs_base + enc_songs(sv.take(i as int)),
            decreases ns - i,
        {
            let ghost song_base = out@;
            push_u32(&mut out, self.songs[i].song_id);
            let bs = self.songs[i].title.as_str().as_bytes_vec();
            proof {
                assert(sv[i as int] == (self.songs@[i as int].song_id, self.songs@[i
                    as int].title@));
                assert(bs@ == encode_utf8(sv[i as int].1));
            }
            push_u64(&mut out, bs.len() as u64);
            let nb = bs.len();
            let mut j: usize = 0;
            while j < nb
                invariant
                    nb == bs@.len(),
                    j <= nb,
                    out@ == song_base + enc_u32(sv[i as int].0) + enc_u64(bs@.len() as u64)
                        + bs@.take(j as int),
                    sv == self.songs_view(),
                    i < sv.len(),
                    bs@ == encode_utf8(sv[i as int].1),
                decreases nb - j,
            {
                out.push(bs[j]);
                proof {
                    assert(bs@.take(j + 1) =~= bs@.take(j as int).push(bs@[j as int]));
                    assert(out@ =~= song_base + enc_u32(sv[i as int].0) + enc_u64(bs@.len() as u64)
                        + bs@.take(j + 1));
                }
                j += 1;
            }
            proof {
                assert(bs@.take(nb as int) =~= bs@);
                assert(out@ =~= song_base + enc_song(sv[i as int]));
                assert(sv.take(i + 1).drop_last() =~= sv.take(i as int));
                assert(sv.take(i + 1).last() == sv[i as int]);
                assert(out@ =~= songs_base + enc_songs(sv.take(i + 1)));
            }
            i += 1;
        }
        proof {
            assert(sv.take(ns as int) =~= sv);
            assert(out@ =~= enc_db(es, sv));
        }
        out
    }
}

/// Reads a 32-bit value, or nothing when fewer than four bytes remain.
fn read_u32(bytes: &Vec<u8>, pos: usize) -> (r: Option<(u32, usize)>)
    requires
        pos <= bytes@.len(),
    ensures
        pos + 4 <= bytes@.len() ==> (r matches Some(p) && p.0 == spec_r_u32(bytes@, pos as int)
            && p.1 == pos + 4),
        pos + 4 > bytes@.len() ==> r is None,
{
    if bytes.len() - pos >= 4 {
        let v = (bytes[pos] as u32) | ((bytes[pos + 1] as u32) << 8) | ((bytes[pos + 2] as u32)
            << 16) | ((bytes[pos + 3] as u32) << 24);
        Some((v, pos + 4))
    } else {
        None
    }
}

/// Reads a 64-bit value, or nothing when fewer than eight bytes remain.
fn read_u64(bytes: &Vec<u8>, pos: usize) -> (r: Option<(u64, usize)>)
    requires
        pos <= bytes@.len(),
    ensures
        pos + 8 <= bytes@.len() ==> (r matches Some(p) && p.0 == spec_r_u64(bytes@, pos as int)
            && p.1 == pos + 8),
        pos + 8 > bytes@.len() ==> r is None,
{
    if bytes.len() - pos >= 8 {
        let v = (bytes[pos] as u64) | ((bytes[pos + 1] as u64) << 8) | ((bytes[pos + 2] as u64)
            << 16) | ((bytes[pos + 3] as u64) << 24) | ((bytes[pos + 4] as u64) << 32) | ((bytes[pos
            + 5] as u64) << 40) | ((bytes[pos + 6] as u64) << 48) | ((bytes[pos + 7] as u64) << 56);
        Some((v, pos + 8))
    } else {
        None
    }
}

/// Relies on str::from_utf8: it accepts exactly the valid UTF-8 byte
/// sequences, and hands back the characters those bytes encode.
#[verifier::external_body]
fn bytes_to_string(v: &Vec<u8>) -> (r: Option<String>)
    ensures
        r is Some <==> valid_utf8(v@),
        r matches Some(s) ==> s@ == decode_utf8(v@),
{
    match core::str::from_utf8(v.as_slice()) {
        Ok(s) => Some(s.to_owned()),
        Err(_) => None,
    }
}

/// Parses `n` postings.
pub open spec fn parse_postings(b: Seq<u8>, pos: int, n: nat) -> Option<(Seq<Posting>, int)>
    decreases n,
{
    if n == 0 {
        Some((Seq::empty(), pos))
    } else if pos + 8 <= b.len() {
        match parse_postings(b, pos + 8, (n - 1) as nat) {
            Some(p) => Some((seq![(spec_r_u32(b, pos), spec_r_u32(b, pos + 4))] + p.0, p.1)),
            None => None,
        }
    } else {
        None
    }
}

/// Parses one index entry: key, posting count, postings.
pub open spec fn parse_entry(b: Seq<u8>, pos: int) -> Option<(SpecEntry, int)> {
    if pos + 20 <= b.len() {
        let fp = Fingerprint {
            freq1: spec_r_u32(b, pos),
            freq2: spec_r_u32(b, pos + 4),
            time_delta: spec_r_u32(b, pos + 8),
        };
        match parse_postings(b, pos + 20, spec_r_u64(b, pos + 12) as nat) {
            Some(p) => Some(((fp, p.0), p.1)),
            None => None,
        }
    } else {
        None
    }
}

/// Parses `n` index entries.
pub open spec fn parse_entries(b: Seq<u8>, pos: int, n: nat) -> Option<(Seq<SpecEntry>, int)>
    decreases n,
{
    if n == 0 {
        Some((Seq::empty(), pos))
    } else {
        match parse_entry(b, pos) {
            Some(e) => match parse_entries(b, e.1, (n - 1) as nat) {
                Some(p) => Some((seq![e.0] + p.0, p.1)),
                None => None,
            },
            None => None,
        }
    }
}

/// Parses one catalog entry standing at index `idx`: its id, which must be
/// `idx` itself — ids are dense and insertion-ordered — and its title as a
/// byte count followed by that many UTF-8 bytes.
pub open spec fn parse_song(b: Seq<u8>, pos: int, idx: nat) -> Option<((u32, Seq<char>), int)> {
    if pos + 12 <= b.len() {
        let id = spec_r_u32(b, pos);
        let tlen = spec_r_u64(b, pos + 4) as int;
        if id == idx && pos + 12 + tlen <= b.len() {
            let tb = b.subrange(pos + 12, pos + 12 + tlen);
            if valid_utf8(tb) {
                Some(((id, decode_utf8(tb)), pos + 12 + tlen))
            } else {
                None
            }
        } else {
            None
        }
    } else {
        None
    }
}

/// Parses `n` catalog entries, starting at index `idx`.
pub open spec fn parse_songs(b: Seq<u8>, pos: int, n: nat, idx: nat) -> Option<
    (Seq<(u32, Seq<char>)>, int),
>
    decreases n,
{
    if n == 0 {
        Some((Seq::empty(), pos))
    } else {
        match parse_song(b, pos, idx) {
            Some(s) => match parse_songs(b, s.1, (n - 1) as nat, idx + 1) {
                Some(p) => Some((seq![s.0] + p.0, p.1)),
                None => None,
            },
            None => None,
        }
    }
}

/// Parses a whole database image. Accepts a byte sequence exactly when it is
/// a well-formed image consumed in full: entry count, entries with strictly
/// ascending keys, song count, songs with dense ids, nothing trailing.
pub open spec fn parse_db(b: Seq<u8>) -> Option<(Seq<SpecEntry>, Seq<(u32, Seq<char>)>)> {
    if 8 <= b.len() {
        match parse_entries(b, 8, spec_r_u64(b, 0) as nat) {
            Some(es) => if es.1 + 8 <= b.len() {
                match parse_songs(b, es.1 + 8, spec_r_u64(b, es.1) as nat, 0) {
                    Some(songs) => if songs.1 == b.len() && entries_sorted(es.0) {
                        Some((es.0, songs.0))
                    } else {
                        None
                    },
                    None => None,
                }
            } else {
                None
            },
            None => None,
        }
    } else {
        None
    }
}

/// Parsing continuations: what the whole parse yields once `acc` has been
/// read and `rem` items remain at `pos`.
pub open spec fn entries_cont(b: Seq<u8>, pos: int, rem: nat, acc: Seq<SpecEntry>) -> Option<
    (Seq<SpecEntry>, int),
> {
    match parse_entries(b, pos, rem) {
        Some(p) => Some((acc + p.0, p.1)),
        None => None,
    }
}

pub open spec fn postings_cont(b: Seq<u8>, pos: int, rem: nat, acc: Seq<Posting>) -> Option<
    (Seq<Posting>, int),
> {
    match parse_postings(b, pos, rem) {
        Some(p) => Some((acc + p.0, p.1)),
        None => None,
    }
}

pub open spec fn songs_cont(
    b: Seq<u8>,
    pos: int,
    rem: nat,
    idx: nat,
    acc: Seq<(u32, Seq<char>)>,
) -> Option<(Seq<(u32, Seq<char>)>, int)> {
    match parse_songs(b, pos, rem, idx) {
        Some(p) => Some((acc + p.0, p.1)),
        None => None,
    }
}

/// What a successful posting parse guarantees: `n` postings, eight bytes
/// each.
proof fn lemma_parse_postings_bounds(b: Seq<u8>, pos: int, n: nat)
    requires
        0 <= pos <= b.len(),
        parse_postings(b, pos, n) is Some,
    ensures
        ({
            let p = parse_postings(b, pos, n)->Some_0;
            &&& p.0.len() == n
            &&& p.1 == pos + 8 * n
            &&& pos <= p.1 <= b.len()
        }),
    decreases n,
{
    if n > 0 {
        lemma_parse_postings_bounds(b, pos + 8, (n - 1) as nat);
    }
}

/// What a successful entry parse guarantees: at least the header consumed,
/// and no more postings than consumed bytes can hold.
proof fn lemma_parse_entry_bounds(b: Seq<u8>, pos: int)
    requires
        0 <= pos <= b.len(),
        parse_entry(b, pos) is Some,
    ensures
        ({
            let e = parse_entry(b, pos)->Some_0;
            &&& pos + 20 <= e.1 <= b.len()
            &&& 8 * e.0.1.len() <= e.1 - pos
        }),
{
    lemma_parse_postings_bounds(b, pos + 20, spec_r_u64(b, pos + 12) as nat);
}

proof fn lemma_parse_entries_bounds(b: Seq<u8>, pos: int, n: nat)
    requires
        0 <= pos <= b.len(),
        parse_entries(b, pos, n) is Some,
    ensures
        ({
            let p = parse_entries(b, pos, n)->Some_0;
            &&& p.0.len() == n
            &&& pos <= p.1 <= b.len()
            &&& 8 * posting_total(p.0) <= p.1 - pos
        }),
    decreases n,
{
    if n > 0 {
        let e = parse_entry(b, pos)->Some_0;
        lemma_parse_entry_bounds(b, pos);
        lemma_parse_entries_bounds(b, e.1, (n - 1) as nat);
        let rest = parse_entries(b, e.1, (n - 1) as nat)->Some_0;
        let whole = seq![e.0] + rest.0;
        crate::db::lemma_posting_total_prepend(rest.0, e.0);
    }
}

/// Pairwise key order follows from adjacent key order.
proof fn lemma_fp_lt_chain(es: Seq<SpecEntry>, a: int, c: int)
    requires
        forall|k: int| 0 < k < es.len() ==> fp_lt((#[trigger] es[k - 1]).0, es[k].0),
        0 <= a < c < es.len(),
    ensures
        fp_lt(es[a].0, es[c].0),
    decreases c - a,
{
    assert(fp_lt(es[c - 1].0, es[c].0));
    if c > a + 1 {
        lemma_fp_lt_chain(es, a, c - 1);
    }
}

/// Reads `n` postings, or fails exactly when the parser would.
fn load_postings(bytes: &Vec<u8>, n: u64, start: usize) -> (r: Result<
    (Vec<Posting>, usize),
    FingerprintError,
>)
    requires
        start <= bytes@.len(),
    ensures
        r matches Ok(p) ==> parse_postings(bytes@, start as int, n as nat) == Some(
            (p.0@, p.1 as int),
        ) && p.1 <= bytes@.len(),
        r matches Err(e) ==> parse_postings(bytes@, start as int, n as nat) is None && e
            == FingerprintError::MalformedDatabase,
{
    let ghost b = bytes@;
    let mut plist: Vec<Posting> = Vec::new();
    let mut pos = start;
    let mut j: u64 = 0;
    while j < n
        invariant
            b == bytes@,
            j <= n,
            pos <= b.len(),
            postings_cont(b, pos as int, (n - j) as nat, plist@) == parse_postings(
                b,
                start as int,
                n as nat,
            ),
        decreases n - j,
    {
        let ghost plist0 = plist@;
        let ghost rem = (n - j) as nat;
        let song = match read_u32(bytes, pos) {
            Some(p) => p,
            None => {
                proof {
                    assert(parse_postings(b, pos as int, rem) is None);
                }
                return Err(FingerprintError::MalformedDatabase);
            },
        };
        let off = match read_u32(bytes, song.1) {
            Some(p) => p,
            None => {
                proof {
                    assert(parse_postings(b, pos as int, rem) is None);
                }
                return Err(FingerprintError::MalformedDatabase);
            },
        };
        plist.push((song.0, off.0));
        proof {
            assert(plist@ =~= plist0.push((song.0, off.0)));
            assert(parse_postings(b, pos as int, rem) == (match parse_postings(
                b,
                pos + 8,
                (rem - 1) as nat,
            ) {
                Some(p) => Some(
                    (seq![(spec_r_u32(b, pos as int), spec_r_u32(b, pos + 4))] + p.0, p.1),
                ),
                None => None,
            }));
            if parse_postings(b, pos + 8, (rem - 1) as nat) is Some {
                let p = parse_postings(b, pos + 8, (rem - 1) as nat)->Some_0;
                assert(plist0 + (seq![(song.0, off.0)] + p.0) =~= plist@ + p.0);
            }
        }
        pos = off.1;
        j += 1;
    }
    proof {
        assert(parse_postings(b, pos as int, 0) == Some((Seq::<Posting>::empty(), pos as int)));
        assert(plist@ + Seq::<Posting>::empty() =~= plist@);
    }
    Ok((plist, pos))
}

/// Reads `n` index entries, or fails exactly when the parser would.
fn load_entries(bytes: &Vec<u8>, n: u64, start: usize) -> (r: Result<
    (Vec<(Fingerprint, Vec<Posting>)>, usize),
    FingerprintError,
>)
    requires
        start <= bytes@.len(),
    ensures
        r matches Ok(p) ==> parse_entries(bytes@, start as int, n as nat) == Some(
            (view_entries(p.0@), p.1 as int),
        ) && p.1 <= bytes@.len(),
        r matches Err(e) ==> parse_entries(bytes@, start as int, n as nat) is None && e
            == FingerprintError::MalformedDatabase,
{
    let ghost b = bytes@;
    let mut dbv: Vec<(Fingerprint, Vec<Posting>)> = Vec::new();
    let mut pos = start;
    let mut i: u64 = 0;
    while i < n
        invariant
            b == bytes@,
            i <= n,
            pos <= b.len(),
            entries_cont(b, pos as int, (n - i) as nat, view_entries(dbv@)) == parse_entries(
                b,
                start as int,
                n as nat,
            ),
        decreases n - i,
    {
        let ghost acc = view_entries(dbv@);
        let ghost rem = (n - i) as nat;
        let ghost pos0 = pos as int;
        let f1 = match read_u32(bytes, pos) {
            Some(p) => p,
            None => {
                proof {
                    assert(parse_entry(b, pos0) is None);
                    assert(parse_entries(b, pos0, rem) is None);
                }
                return Err(FingerprintError::MalformedDatabase);
            },
        };
        let f2 = match read_u32(bytes, f1.1) {
            Some(p) => p,
            None => {
                proof {
                    assert(parse_entry(b, pos0) is None);
                    assert(parse_entries(b, pos0, rem) is None);
                }
                return Err(FingerprintError::MalformedDatabase);
            },
        };
        let f3 = match read_u32(bytes, f2.1) {
            Some(p) => p,
            None => {
                proof {
                    assert(parse_entry(b, pos0) is None);
                    assert(parse_entries(b, pos0, rem) is None);
                }
                return Err(FingerprintError::MalformedDatabase);
            },
        };
        let cnt = match read_u64(bytes, f3.1) {
            Some(p) => p,
            None => {
                proof {
                    assert(parse_entry(b, pos0) is None);
                    assert(parse_entries(b, pos0, rem) is None);
                }
                return Err(FingerprintError::MalformedDatabase);
            },
        };
        let ps = match load_postings(bytes, cnt.0, cnt.1) {
            Ok(p) => p,
            Err(e) => {
                proof {
                    assert(parse_entry(b, pos0) is None);
                    assert(parse_entries(b, pos0, rem) is None);
                }
                return Err(e);
            },
        };
        let fp = Fingerprint { freq1: f1.0, freq2: f2.0, time_delta: f3.0 };
        let ghost plist_view = ps.0@;
        dbv.push((fp, ps.0));
        pos = ps.1;
        proof {
            assert(parse_entry(b, pos0) == Some(((fp, plist_view), pos as int)));
            assert(view_entries(dbv@) =~= acc + seq![(fp, plist_view)]);
            assert(parse_entries(b, pos0, rem) == (match parse_entries(
                b,
                pos as int,
                (rem - 1) as nat,
            ) {
                Some(p) => Some((seq![(fp, plist_view)] + p.0, p.1)),
                None => None,
            }));
            if parse_entries(b, pos as int, (rem - 1) as nat) is Some {
                let p = parse_entries(b, pos as int, (rem - 1) as nat)->Some_0;
                assert(acc + (seq![(fp, plist_view)] + p.0) =~= view_entries(dbv@) + p.0);
            }
        }
        i += 1;
    }
    proof {
        assert(parse_entries(b, pos as int, 0) == Some((Seq::<SpecEntry>::empty(), pos as int)));
        assert(view_entries(dbv@) + Seq::<SpecEntry>::empty() =~= view_entries(dbv@));
    }
    Ok((dbv, pos))
}

/// Reads `n` catalog entries starting at id `0`, or fails exactly when the
/// parser would — in particular on any id out of order.
fn load_songs(bytes: &Vec<u8>, n: u64, start: usize) -> (r: Result<
    (Vec<SongMetaData>, usize),
    FingerprintError,
>)
    requires
        start <= bytes@.len(),
    ensures
        r matches Ok(p) ==> parse_songs(bytes@, start as int, n as nat, 0) == Some(
            (view_songs(p.0@), p.1 as int),
        ) && p.1 <= bytes@.len(),
        r matches Err(e) ==> parse_songs(bytes@, start as int, n as nat, 0) is None && e
            == FingerprintError::MalformedDatabase,
{
    let ghost b = bytes@;
    let mut songs: Vec<SongMetaData> = Vec::new();
    let mut pos = start;
    let mut i: u64 = 0;
    while i < n
        invariant
            b == bytes@,
            i <= n,
            pos <= b.len(),
            songs@.len() == i,
            songs_cont(b, pos as int, (n - i) as nat, i as nat, view_songs(songs@))
                == parse_songs(b, start as int, n as nat, 0),
        decreases n - i,
    {
        let ghost acc = view_songs(songs@);
        let ghost rem = (n - i) as nat;
        let ghost pos0 = pos as int;
        let idf = match read_u32(bytes, pos) {
            Some(p) => p,
            None => {
                proof {
                    assert(parse_song(b, pos0, i as nat) is None);
                    assert(parse_songs(b, pos0, rem, i as nat) is None);
                }
                return Err(FingerprintError::MalformedDatabase);
            },
        };
        let tl = match read_u64(bytes, idf.1) {
            Some(p) => p,
            None => {
                proof {
                    assert(parse_song(b, pos0, i as nat) is None);
                    assert(parse_songs(b, pos0, rem, i as nat) is None);
                }
                return Err(FingerprintError::MalformedDatabase);
            },
        };
        if !(i <= u32::MAX as u64 && idf.0 as u64 == i) {
            proof {
                assert(parse_song(b, pos0, i as nat) is None);
                assert(parse_songs(b, pos0, rem, i as nat) is None);
            }
            return Err(FingerprintError::MalformedDatabase);
        }
        let remaining = bytes.len() - tl.1;
        if tl.0 > remaining as u64 {
            proof {
                assert(parse_song(b, pos0, i as nat) is None);
                assert(parse_songs(b, pos0, rem, i as nat) is None);
            }
            return Err(FingerprintError::MalformedDatabase);
        }
        let tlen = tl.0 as usize;
        let mut tb: Vec<u8> = Vec::new();
        let mut t: usize = 0;
        while t < tlen
            invariant
                b == bytes@,
                tl.1 + tlen <= b.len(),
                b.len() <= usize::MAX,
                t <= tlen,
                tb@ == b.subrange(tl.1 as int, tl.1 + t),
            decreases tlen - t,
        {
            tb.push(bytes[tl.1 + t]);
            proof {
                assert(tb@ =~= b.subrange(tl.1 as int, tl.1 + t + 1));
            }
            t += 1;
        }
        let title = match bytes_to_string(&tb) {
            Some(s) => s,
            None => {
                proof {
                    assert(parse_song(b, pos0, i as nat) is None);
                    assert(parse_songs(b, pos0, rem, i as nat) is None);
                }
                return Err(FingerprintError::MalformedDatabase);
            },
        };
        let ghost title_view = title@;
        songs.push(SongMetaData { song_id: idf.0, title });
        pos = tl.1 + tlen;
        proof {
            assert(parse_song(b, pos0, i as nat) == Some(((idf.0, title_view), pos as int)));
            assert(view_songs(songs@) =~= acc + seq![(idf.0, title_view)]);
            assert(parse_songs(b, pos0, rem, i as nat) == (match parse_songs(
                b,
                pos as int,
                (rem - 1) as nat,
                i as nat + 1,
            ) {
                Some(p) => Some((seq![(idf.0, title_view)] + p.0, p.1)),
                None => None,
            }));
            if parse_songs(b, pos as int, (rem - 1) as nat, i as nat + 1) is Some {
                let p = parse_songs(b, pos as int, (rem - 1) as nat, i as nat + 1)->Some_0;
                assert(acc + (seq![(idf.0, title_view)] + p.0) =~= view_songs(songs@) + p.0);
            }
        }
        i += 1;
    }
    proof {
        assert(parse_songs(b, pos as int, 0, i as nat) == Some(
            (Seq::<(u32, Seq<char>)>::empty(), pos as int),
        ));
        assert(view_songs(songs@) + Seq::<(u32, Seq<char>)>::empty() =~= view_songs(songs@));
    }
    Ok((songs, pos))
}

impl FingerprintDB {
    /// Reads a database back from one binary image.
    ///
    /// This succeeds exactly on the images that `parse_db` accepts, and then
    /// returns the one database those bytes describe: together with `save`,
    /// reloading a saved database reproduces its index and catalog exactly.
    /// Anything else — truncation, trailing bytes, ids or keys out of order,
    /// ill-formed titles — is refused as malformed.
    pub fn load(bytes: &Vec<u8>) -> (r: Result<FingerprintDB, FingerprintError>)
        ensures
            r matches Ok(db) ==> db.wf() && parse_db(bytes@) == Some(
                (db.entries(), db.songs_view()),
            ),
            r matches Err(e) ==> parse_db(bytes@) is None && e
                == FingerprintError::MalformedDatabase,
    {
        let ghost b = bytes@;
        let hdr = match read_u64(bytes, 0) {
            Some(p) => p,
            None => {
                proof {
                    assert(b.len() < 8);
                    assert(parse_db(b) is None);
                }
                return Err(FingerprintError::MalformedDatabase);
            },
        };
        proof {
            assert(hdr.0 == spec_r_u64(b, 0) && hdr.1 == 8);
        }
        let es = match load_entries(bytes, hdr.0, hdr.1) {
            Ok(p) => p,
            Err(e) => {
                proof {
                    assert(parse_entries(b, 8, spec_r_u64(b, 0) as nat) is None);
                    assert(parse_db(b) is None);
                }
                return Err(e);
            },
        };
        let ghost entries_view = view_entries(es.0@);
        let ne = es.0.len();
        let mut k: usize = 1;
        while k < ne && ne > 0
            invariant
                b == bytes@,
                8 <= b.len(),
                entries_view == view_entries(es.0@),
                parse_entries(b, 8, spec_r_u64(b, 0) as nat) == Some(
                    (entries_view, es.1 as int),
                ),
                es.1 <= b.len(),
                ne == entries_view.len(),
                1 <= k || ne == 0,
                k <= ne || ne == 0,
                forall|m: int| 0 < m < k ==> fp_lt(
                    (#[trigger] entries_view[m - 1]).0,
                    entries_view[m].0,
                ),
            decreases ne - k,
        {
            if !fp_less(&es.0[k - 1].0, &es.0[k].0) {
                proof {
                    assert(!fp_lt(entries_view[k - 1].0, entries_view[k as int].0));
                    assert(!entries_sorted(entries_view));
                    assert(parse_entries(b, 8, spec_r_u64(b, 0) as nat) == Some(
                        (entries_view, es.1 as int),
                    ));
                    assert(parse_db(b) is None);
                }
                return Err(FingerprintError::MalformedDatabase);
            }
            k += 1;
        }
        proof {
            assert forall|a: int, c: int| 0 <= a < c < entries_view.len() implies fp_lt(
                (#[trigger] entries_view[a]).0,
                (#[trigger] entries_view[c]).0,
            ) by {
                lemma_fp_lt_chain(entries_view, a, c);
            }
        }
        let shdr = match read_u64(bytes, es.1) {
            Some(p) => p,
            None => {
                proof {
                    assert(es.1 + 8 > b.len());
                    assert(parse_db(b) is None);
                }
                return Err(FingerprintError::MalformedDatabase);
            },
        };
        let songs = match load_songs(bytes, shdr.0, shdr.1) {
            Ok(p) => p,
            Err(e) => {
                proof {
                    assert(parse_songs(b, es.1 + 8, spec_r_u64(b, es.1 as int) as nat, 0)
                        is None);
                    assert(parse_db(b) is None);
                }
                return Err(e);
            },
        };
        if songs.1 != bytes.len() {
            proof {
                assert(parse_db(b) is None);
            }
            return Err(FingerprintError::MalformedDatabase);
        }
        let db = FingerprintDB { database: es.0, songs: songs.0 };
        proof {
            lemma_parse_entries_bounds(b, hdr.1 as int, hdr.0 as nat);
            assert(8 * posting_total(entries_view) <= b.len());
            assert forall|i: int| 0 <= i < db.songs_view().len() implies (
            #[trigger] db.songs_view()[i]).0 == i by {
                lemma_parse_songs_ids(b, shdr.1 as int, shdr.0 as nat, 0);
                assert(db.songs_view() == parse_songs(b, shdr.1 as int, shdr.0 as nat, 0)->Some_0.0);
            }
            assert(db.wf());
        }
        Ok(db)
    }

    /// Starts from what storage had: no image at all is a fresh, empty
    /// database; an image that is present must parse, and a corrupt one is
    /// an error, not silently a fresh start.
    pub fn load_or_create(bytes: &Option<Vec<u8>>) -> (r: Result<FingerprintDB, FingerprintError>)
        ensures
            bytes is None ==> (r matches Ok(db) && db.wf() && db.entries()
                == Seq::<SpecEntry>::empty() && db.songs_view() == Seq::<(u32, Seq<char>)>::empty()),
            bytes matches Some(v) ==> match r {
                Ok(db) => db.wf() && parse_db(v@) == Some((db.entries(), db.songs_view())),
                Err(e) => parse_db(v@) is None && e == FingerprintError::MalformedDatabase,
            },
    {
        match bytes {
            None => Ok(FingerprintDB::new()),
            Some(v) => FingerprintDB::load(v),
        }
    }
}

/// A window into a matched byte range matches the same window of the
/// pattern.
proof fn lemma_seq_eq_subrange(b: Seq<u8>, pos: int, s: Seq<u8>, lo: int, hi: int)
    requires
        0 <= pos,
        pos + s.len() <= b.len(),
        b.subrange(pos, pos + s.len()) == s,
        0 <= lo <= hi <= s.len(),
    ensures
        b.subrange(pos + lo, pos + hi) == s.subrange(lo, hi),
{
    assert forall|i: int| 0 <= i < hi - lo implies b.subrange(pos + lo, pos + hi)[i]
        == s.subrange(lo, hi)[i] by {
        assert(b.subrange(pos, pos + s.len())[lo + i] == b[pos + lo + i]);
    }
    assert(b.subrange(pos + lo, pos + hi) =~= s.subrange(lo, hi));
}

/// `enc_postings` seen from the front: first posting, then the rest.
proof fn lemma_enc_postings_first(ps: Seq<Posting>)
    requires
        ps.len() > 0,
    ensures
        enc_postings(ps) == enc_posting(ps[0]) + enc_postings(ps.drop_first()),
    decreases ps.len(),
{
    if ps.len() == 1 {
        assert(ps.drop_last() =~= Seq::<Posting>::empty());
        assert(ps.drop_first() =~= Seq::<Posting>::empty());
        assert(ps.last() == ps[0]);
        assert(enc_postings(ps) =~= enc_posting(ps[0]) + enc_postings(ps.drop_first()));
    } else {
        lemma_enc_postings_first(ps.drop_last());
        assert(ps.drop_last()[0] == ps[0]);
        assert(ps.drop_last().drop_first() =~= ps.drop_first().drop_last());
        assert(ps.drop_first().last() == ps.last());
        assert(enc_postings(ps.drop_first()) == enc_postings(ps.drop_first().drop_last())
            + enc_posting(ps.drop_first().last()));
        assert(enc_postings(ps) =~= enc_posting(ps[0]) + enc_postings(ps.drop_first()));
    }
}

/// Parsing the encoding of a posting list yields it back.
proof fn lemma_parse_postings_of_enc(b: Seq<u8>, pos: int, ps: Seq<Posting>)
    requires
        0 <= pos,
        pos + 8 * ps.len() <= b.len(),
        b.subrange(pos, pos + 8 * ps.len()) == enc_postings(ps),
    ensures
        parse_postings(b, pos, ps.len()) == Some((ps, pos + 8 * ps.len())),
    decreases ps.len(),
{
    if ps.len() > 0 {
        lemma_enc_postings_first(ps);
        lemma_enc_postings_len(ps);
        lemma_enc_postings_len(ps.drop_first());
        let total = enc_postings(ps);
        lemma_seq_eq_subrange(b, pos, total, 0, 4);
        lemma_seq_eq_subrange(b, pos, total, 4, 8);
        lemma_seq_eq_subrange(b, pos, total, 8, total.len() as int);
        assert(total.subrange(0, 4) =~= enc_u32(ps[0].0));
        assert(total.subrange(4, 8) =~= enc_u32(ps[0].1));
        assert(total.subrange(8, total.len() as int) =~= enc_postings(ps.drop_first()));
        lemma_r_u32_enc(b, pos, ps[0].0);
        lemma_r_u32_enc(b, pos + 4, ps[0].1);
        lemma_parse_postings_of_enc(b, pos + 8, ps.drop_first());
        assert(seq![(ps[0].0, ps[0].1)] + ps.drop_first() =~= ps);
    }
}

/// The encoding of `n` postings takes `8 n` bytes.
proof fn lemma_enc_postings_len(ps: Seq<Posting>)
    ensures
        enc_postings(ps).len() == 8 * ps.len(),
    decreases ps.len(),
{
    if ps.len() > 0 {
        lemma_enc_postings_len(ps.drop_last());
    }
}

/// Parsing the encoding of one entry yields it back.
proof fn lemma_parse_entry_of_enc(b: Seq<u8>, pos: int, e: SpecEntry)
    requires
        0 <= pos,
        e.1.len() <= u64::MAX,
        pos + enc_entry(e).len() <= b.len(),
        b.subrange(pos, pos + enc_entry(e).len()) == enc_entry(e),
    ensures
        parse_entry(b, pos) == Some((e, pos + enc_entry(e).len())),
{
    lemma_enc_postings_len(e.1);
    let total = enc_entry(e);
    assert(total.len() == 20 + 8 * e.1.len());
    lemma_seq_eq_subrange(b, pos, total, 0, 4);
    lemma_seq_eq_subrange(b, pos, total, 4, 8);
    lemma_seq_eq_subrange(b, pos, total, 8, 12);
    lemma_seq_eq_subrange(b, pos, total, 12, 20);
    lemma_seq_eq_subrange(b, pos, total, 20, total.len() as int);
    assert(total.subrange(0, 4) =~= enc_u32(e.0.freq1));
    assert(total.subrange(4, 8) =~= enc_u32(e.0.freq2));
    assert(total.subrange(8, 12) =~= enc_u32(e.0.time_delta));
    assert(total.subrange(12, 20) =~= enc_u64(e.1.len() as u64));
    assert(total.subrange(20, total.len() as int) =~= enc_postings(e.1));
    lemma_r_u32_enc(b, pos, e.0.freq1);
    lemma_r_u32_enc(b, pos + 4, e.0.freq2);
    lemma_r_u32_enc(b, pos + 8, e.0.time_delta);
    lemma_r_u64_enc(b, pos + 12, e.1.len() as u64);
    assert(spec_r_u64(b, pos + 12) as nat == e.1.len());
    lemma_parse_postings_of_enc(b, pos + 20, e.1);
    assert(parse_entry(b, pos)->Some_0.0 =~= e);
}

/// `enc_entries` seen from the front: first entry, then the rest.
proof fn lemma_enc_entries_first(es: Seq<SpecEntry>)
    requires
        es.len() > 0,
    ensures
        enc_entries(es) == enc_entry(es[0]) + enc_entries(es.drop_first()),
    decreases es.len(),
{
    if es.len() == 1 {
        assert(es.drop_last() =~= Seq::<SpecEntry>::empty());
        assert(es.drop_first() =~= Seq::<SpecEntry>::empty());
        assert(es.last() == es[0]);
        assert(enc_entries(es) =~= enc_entry(es[0]) + enc_entries(es.drop_first()));
    } else {
        lemma_enc_entries_first(es.drop_last());
        assert(es.drop_last()[0] == es[0]);
        assert(es.drop_last().drop_first() =~= es.drop_first().drop_last());
        assert(es.drop_first().last() == es.last());
        assert(enc_entries(es.drop_first()) == enc_entries(es.drop_first().drop_last())
            + enc_entry(es.drop_first().last()));
        assert(enc_entries(es) =~= enc_entry(es[0]) + enc_entries(es.drop_first()));
    }
}

/// Parsing the encoding of the entry list yields it back.
proof fn lemma_parse_entries_of_enc(b: Seq<u8>, pos: int, es: Seq<SpecEntry>)
    requires
        0 <= pos,
        forall|i: int| 0 <= i < es.len() ==> (#[trigger] es[i]).1.len() <= u64::MAX,
        pos + enc_entries(es).len() <= b.len(),
        b.subrange(pos, pos + enc_entries(es).len()) == enc_entries(es),
    ensures
        parse_entries(b, pos, es.len()) == Some((es, pos + enc_entries(es).len())),
    decreases es.len(),
{
    if es.len() > 0 {
        lemma_enc_entries_first(es);
        let total = enc_entries(es);
        let head_len = enc_entry(es[0]).len() as int;
        lemma_seq_eq_subrange(b, pos, total, 0, head_len);
        lemma_seq_eq_subrange(b, pos, total, head_len, total.len() as int);
        assert(total.subrange(0, head_len) =~= enc_entry(es[0]));
        assert(total.subrange(head_len, total.len() as int) =~= enc_entries(es.drop_first()));
        lemma_parse_entry_of_enc(b, pos, es[0]);
        assert(forall|i: int|
            0 <= i < es.drop_first().len() ==> #[trigger] es.drop_first()[i] == es[i + 1]);
        lemma_parse_entries_of_enc(b, pos + head_len, es.drop_first());
        assert(seq![es[0]] + es.drop_first() =~= es);
    }
}

/// Parsing the encoding of one catalog entry yields it back.
proof fn lemma_parse_song_of_enc(b: Seq<u8>, pos: int, s: (u32, Seq<char>), idx: nat)
    requires
        0 <= pos,
        s.0 == idx,
        encode_utf8(s.1).len() <= u64::MAX,
        pos + enc_song(s).len() <= b.len(),
        b.subrange(pos, pos + enc_song(s).len()) == enc_song(s),
    ensures
        parse_song(b, pos, idx) == Some((s, pos + enc_song(s).len())),
{
    broadcast use vstd::utf8::encode_utf8_valid_utf8;
    broadcast use vstd::utf8::encode_utf8_decode_utf8;

    let tb = encode_utf8(s.1);
    let total = enc_song(s);
    assert(total.len() == 12 + tb.len());
    lemma_seq_eq_subrange(b, pos, total, 0, 4);
    lemma_seq_eq_subrange(b, pos, total, 4, 12);
    lemma_seq_eq_subrange(b, pos, total, 12, total.len() as int);
    assert(total.subrange(0, 4) =~= enc_u32(s.0));
    assert(total.subrange(4, 12) =~= enc_u64(tb.len() as u64));
    assert(total.subrange(12, total.len() as int) =~= tb);
    lemma_r_u32_enc(b, pos, s.0);
    lemma_r_u64_enc(b, pos + 4, tb.len() as u64);
    assert(b.subrange(pos + 12, pos + 12 + tb.len()) == tb);
    assert(valid_utf8(tb));
    assert(decode_utf8(tb) == s.1);
}

/// `enc_songs` seen from the front: first song, then the rest.
proof fn lemma_enc_songs_first(songs: Seq<(u32, Seq<char>)>)
    requires
        songs.len() > 0,
    ensures
        enc_songs(songs) == enc_song(songs[0]) + enc_songs(songs.drop_first()),
    decreases songs.len(),
{
    if songs.len() == 1 {
        assert(songs.drop_last() =~= Seq::<(u32, Seq<char>)>::empty());
        assert(songs.drop_first() =~= Seq::<(u32, Seq<char>)>::empty());
        assert(songs.last() == songs[0]);
        assert(enc_songs(songs) =~= enc_song(songs[0]) + enc_songs(songs.drop_first()));
    } else {
        lemma_enc_songs_first(songs.drop_last());
        assert(songs.drop_last()[0] == songs[0]);
        assert(songs.drop_last().drop_first() =~= songs.drop_first().drop_last());
        assert(songs.drop_first().last() == songs.last());
        assert(enc_songs(songs.drop_first()) == enc_songs(songs.drop_first().drop_last())
            + enc_song(songs.drop_first().last()));
        assert(enc_songs(songs) =~= enc_song(songs[0]) + enc_songs(songs.drop_first()));
    }
}

/// Parsing the encoding of the catalog yields it back.
proof fn lemma_parse_songs_of_enc(b: Seq<u8>, pos: int, songs: Seq<(u32, Seq<char>)>, idx: nat)
    requires
        0 <= pos,
        forall|i: int| 0 <= i < songs.len() ==> (#[trigger] songs[i]).0 == idx + i,
        forall|i: int|
            0 <= i < songs.len() ==> encode_utf8((#[trigger] songs[i]).1).len() <= u64::MAX,
        pos + enc_songs(songs).len() <= b.len(),
        b.subrange(pos, pos + enc_songs(songs).len()) == enc_songs(songs),
    ensures
        parse_songs(b, pos, songs.len(), idx) == Some((songs, pos + enc_songs(songs).len())),
    decreases songs.len(),
{
    if songs.len() > 0 {
        lemma_enc_songs_first(songs);
        let total = enc_songs(songs);
        let head_len = enc_song(songs[0]).len() as int;
        lemma_seq_eq_subrange(b, pos, total, 0, head_len);
        lemma_seq_eq_subrange(b, pos, total, head_len, total.len() as int);
        assert(total.subrange(0, head_len) =~= enc_song(songs[0]));
        assert(total.subrange(head_len, total.len() as int) =~= enc_songs(songs.drop_first()));
        lemma_parse_song_of_enc(b, pos, songs[0], idx);
        assert(forall|i: int|
            0 <= i < songs.drop_first().len() ==> #[trigger] songs.drop_first()[i] == songs[i
                + 1]);
        lemma_parse_songs_of_enc(b, pos + head_len, songs.drop_first(), idx + 1);
        assert(seq![songs[0]] + songs.drop_first() =~= songs);
    }
}

/// The round trip of persistence: the image `save` writes for a well-formed
/// database is accepted by the parser behind `load` and yields exactly the
/// saved index and the saved catalog — identical keys, identical posting
/// lists, identical songs.
pub proof fn lemma_save_load_roundtrip(db: FingerprintDB)
    requires
        db.wf(),
        db.entries().len() <= u64::MAX,
        db.songs_view().len() <= u64::MAX,
        forall|i: int|
            0 <= i < db.entries().len() ==> (#[trigger] db.entries()[i]).1.len() <= u64::MAX,
        forall|i: int|
            0 <= i < db.songs_view().len() ==> encode_utf8(
                (#[trigger] db.songs_view()[i]).1,
            ).len() <= u64::MAX,
    ensures
        parse_db(enc_db(db.entries(), db.songs_view())) == Some(
            (db.entries(), db.songs_view()),
        ),
{
    let es = db.entries();
    let sv = db.songs_view();
    let b = enc_db(es, sv);
    let pos1 = 8 + enc_entries(es).len() as int;
    assert(b.subrange(0, b.len() as int) =~= b);
    lemma_seq_eq_subrange(b, 0, b, 0, 8);
    lemma_seq_eq_subrange(b, 0, b, 8, pos1);
    lemma_seq_eq_subrange(b, 0, b, pos1, pos1 + 8);
    lemma_seq_eq_subrange(b, 0, b, pos1 + 8, b.len() as int);
    assert(b.subrange(0, 8) =~= enc_u64(es.len() as u64));
    lemma_r_u64_enc(b, 0, es.len() as u64);
    assert(b.subrange(8, pos1) =~= enc_entries(es));
    lemma_parse_entries_of_enc(b, 8, es);
    assert(b.subrange(pos1, pos1 + 8) =~= enc_u64(sv.len() as u64));
    lemma_r_u64_enc(b, pos1, sv.len() as u64);
    assert(b.subrange(pos1 + 8, pos1 + 8 + enc_songs(sv).len()) =~= enc_songs(sv));
    assert(forall|i: int| 0 <= i < sv.len() ==> (#[trigger] sv[i]).0 == i);
    lemma_parse_songs_of_enc(b, pos1 + 8, sv, 0);
    assert(pos1 + 8 + enc_songs(sv).len() == b.len());
}

/// A successful song parse yields dense ids starting at `idx`.
proof fn lemma_parse_songs_ids(b: Seq<u8>, pos: int, n: nat, idx: nat)
    requires
        parse_songs(b, pos, n, idx) is Some,
    ensures
        ({
            let p = parse_songs(b, pos, n, idx)->Some_0;
            &&& p.0.len() == n
            &&& forall|i: int| 0 <= i < p.0.len() ==> (#[trigger] p.0[i]).0 == idx + i
        }),
    decreases n,
{
    if n > 0 {
        let s = parse_song(b, pos, idx)->Some_0;
        lemma_parse_songs_ids(b, s.1, (n - 1) as nat, idx + 1);
        let rest = parse_songs(b, s.1, (n - 1) as nat, idx + 1)->Some_0;
        let whole = seq![s.0] + rest.0;
        assert(forall|i: int| 0 < i < whole.len() ==> #[trigger] whole[i] == rest.0[i - 1]);
    }
}

} // verus!
