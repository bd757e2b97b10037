//! MP4 (ISO BMFF) metadata: box headers, the track tables of `moov`, the
//! sample layout of a track and the creation-time fields.
use vstd::prelude::*;
use vstd::wrapping::u64_specs::{wrapping_add, wrapping_sub};
use crate::bytes::{be_u32_at, be_u64_at, spec_be_u32, spec_be_u64};
use crate::proto::copy_range;
use crate::bytes::{be32_seq, be64_seq};
use crate::jpeg::{push_u32, push_u64};
use crate::time::{add_seconds, chrono_utc_valid, quicktime_epoch, spec_add_seconds, Timestamp, QUICKTIME_EPOCH_SECS};
use crate::text::{spec_utf8_lossy, trim_nuls, trim_trailing_nuls, utf8_lossy};

verus! {

/// Why an MP4 could not be read or patched.
#[derive(Clone, Copy, Debug, PartialEq, Eq, Structural)]
pub enum Mp4Error {
    /// The bytes `offset..offset + len` of the file are needed and have not
    /// been read yet.
    NeedBytes { offset: u64, len: u64 },
    /// A read of `len` bytes at `offset` runs past the end of the file.
    ReadPastEnd { offset: u64, len: u64 },
    /// An `hdlr` box is shorter than its fixed fields.
    ShortHdlr,
    /// No `mvhd` box inside `moov`.
    MvhdNotFound,
    /// The creation time cannot be represented as an instant.
    CreationTimeOutOfRange,
    /// No track with the requested id.
    TrackNotFound { id: u32 },
    /// No track with a `djmd` sample entry or a `meta` handler.
    NoMetadataTrack,
    /// The track has no sample sizes.
    NoSampleSizes,
    /// The track has no chunk offsets.
    NoChunkOffsets,
    /// The track has no sample-to-chunk table.
    NoSampleToChunk,
    /// The chunk layout covers another number of samples than the sizes table.
    SampleCountMismatch { built: usize, sizes: usize },
    /// A version-0 time box cannot hold the time in its 32-bit fields.
    TimeFieldTooLarge { kind: TimeBox, seconds: u64 },
    /// No `mvhd`, `tkhd` or `mdhd` time fields were found.
    NoTimeFields,
    /// The time lies before 1904-01-01T00:00:00Z.
    BeforeQuickTimeEpoch,
}

/// The boxes whose creation and modification times are patched.
#[derive(Clone, Copy, Debug, PartialEq, Eq, Structural)]
pub enum TimeBox {
    Mvhd,
    Tkhd,
    Mdhd,
}

/// One row of a sample-to-chunk (`stsc`) table.
#[derive(Clone, Copy, Debug, PartialEq, Eq, Structural)]
pub struct StscEntry {
    pub first_chunk: u32,
    pub samples_per_chunk: u32,
    pub sample_description_index: u32,
}

/// One row of a time-to-sample (`stts`) table.
#[derive(Clone, Copy, Debug, PartialEq, Eq, Structural)]
pub struct SttsEntry {
    pub sample_count: u32,
    pub sample_delta: u32,
}

/// What the library reads of one `trak` box.
#[derive(Debug)]
pub struct Track {
    pub id: u32,
    pub handler: String,
    pub name: String,
    pub sample_entry: String,
    pub timescale: u32,
    pub sample_count: usize,
    pub sizes: Vec<u32>,
    pub chunk_offsets: Vec<u64>,
    pub stsc: Vec<StscEntry>,
    pub stts: Vec<SttsEntry>,
}

/// Mathematical model of a [`Track`].
pub struct SpecTrack {
    pub id: u32,
    pub handler: Seq<char>,
    pub name: Seq<char>,
    pub sample_entry: Seq<char>,
    pub timescale: u32,
    pub sample_count: usize,
    pub sizes: Seq<u32>,
    pub chunk_offsets: Seq<u64>,
    pub stsc: Seq<StscEntry>,
    pub stts: Seq<SttsEntry>,
}

impl View for Track {
    type V = SpecTrack;

    open spec fn view(&self) -> SpecTrack {
        SpecTrack {
            id: self.id,
            handler: self.handler@,
            name: self.name@,
            sample_entry: self.sample_entry@,
            timescale: self.timescale,
            sample_count: self.sample_count,
            sizes: self.sizes@,
            chunk_offsets: self.chunk_offsets@,
            stsc: self.stsc@,
            stts: self.stts@,
        }
    }
}

/// Which track [`select_track`] picks: for a nonzero `id` the first track
/// with that id, for 0 the first track with a `djmd` sample entry or a
/// `meta` handler.
pub open spec fn spec_select_track(tracks: Seq<Track>, id: u32) -> Result<nat, Mp4Error> {
    if id != 0 {
        match spec_first_track(tracks, |t: Track| t.id == id, 0) {
            Some(k) => Ok(k),
            None => Err(Mp4Error::TrackNotFound { id }),
        }
    } else {
        match spec_first_track(tracks, |t: Track| t.sample_entry@ == "djmd"@ || t.handler@ == "meta"@, 0) {
            Some(k) => Ok(k),
            None => Err(Mp4Error::NoMetadataTrack),
        }
    }
}

/// Index of the first track from `i` on that satisfies `p`.
pub open spec fn spec_first_track(tracks: Seq<Track>, p: spec_fn(Track) -> bool, i: nat) -> Option<nat>
    decreases tracks.len() - i,
{
    if i >= tracks.len() {
        None
    } else if p(tracks[i as int]) {
        Some(i)
    } else {
        spec_first_track(tracks, p, i + 1)
    }
}

proof fn lemma_first_track_in_range(tracks: Seq<Track>, p: spec_fn(Track) -> bool, i: nat)
    ensures
        spec_first_track(tracks, p, i) matches Some(k) ==> i <= k < tracks.len(),
    decreases tracks.len() - i,
{
    if i < tracks.len() && !p(tracks[i as int]) {
        lemma_first_track_in_range(tracks, p, i + 1);
    }
}

/// Picks the track to read GPS samples from (see [`spec_select_track`]).
pub fn select_track(tracks: &[Track], id: u32) -> (r: Result<&Track, Mp4Error>)
    ensures
        match spec_select_track(tracks@, id) {
            Ok(k) => r matches Ok(t) && k < tracks@.len() && *t == tracks@[k as int],
            Err(e) => r matches Err(e2) && e2 == e,
        },
{
    let djmd = "djmd".to_owned();
    let meta = "meta".to_owned();
    let ghost p = if id != 0 {
        |t: Track| t.id == id
    } else {
        |t: Track| t.sample_entry@ == "djmd"@ || t.handler@ == "meta"@
    };
    proof {
        lemma_first_track_in_range(tracks@, p, 0);
    }
    let mut i: usize = 0;
    while i < tracks.len()
        invariant
            i <= tracks.len(),
            djmd@ == "djmd"@,
            meta@ == "meta"@,
            p == (if id != 0 {
                |t: Track| t.id == id
            } else {
                |t: Track| t.sample_entry@ == "djmd"@ || t.handler@ == "meta"@
            }),
            spec_first_track(tracks@, p, 0) == spec_first_track(tracks@, p, i as nat),
        decreases tracks.len() - i,
    {
        let t = &tracks[i];
        let hit = if id != 0 {
            t.id == id
        } else {
            t.sample_entry == djmd || t.handler == meta
        };
        assert(hit == p(tracks@[i as int]));
        if hit {
            return Ok(t);
        }
        i = i + 1;
    }
    if id != 0 {
        Err(Mp4Error::TrackNotFound { id })
    } else {
        Err(Mp4Error::NoMetadataTrack)
    }
}


/// The per-sample durations that an `stts` table lists, in sample order.
pub open spec fn stts_deltas(stts: Seq<SttsEntry>) -> Seq<u32>
    decreases stts.len(),
{
    if stts.len() == 0 {
        Seq::empty()
    } else {
        let last = stts.last();
        stts_deltas(stts.drop_last()) + Seq::new(last.sample_count as nat, |_i: int| last.sample_delta)
    }
}

/// Sum of the first `n` durations.
pub open spec fn delta_sum(d: Seq<u32>, n: nat) -> int
    decreases n,
{
    if n == 0 { 0 } else { delta_sum(d, (n - 1) as nat) + d[n - 1] }
}

/// Start of each sample in track ticks, with the 64-bit wrap-around of the
/// running sum: the sum of the durations of the samples before it. Samples
/// that the `stts` table does not reach, and all samples of a track whose
/// timescale is 0, start at 0.
pub open spec fn spec_sample_ticks(t: SpecTrack) -> Seq<u64> {
    let d = stts_deltas(t.stts);
    Seq::new(
        t.sizes.len(),
        |i: int|
            if t.timescale != 0 && i < d.len() {
                (delta_sum(d, i as nat) % 0x1_0000_0000_0000_0000) as u64
            } else {
                0u64
            },
    )
}

/// The duration of sample `i` by the rows of `stts` taken in order: the
/// first row covers its first `sample_count` samples with its
/// `sample_delta`, the next row the samples after those, and so on; `None`
/// past the samples of the last row.
pub open spec fn stts_row_delta(stts: Seq<SttsEntry>, i: int) -> Option<u32>
    decreases stts.len(),
{
    if stts.len() == 0 || i < 0 {
        None
    } else if i < stts[0].sample_count {
        Some(stts[0].sample_delta)
    } else {
        stts_row_delta(stts.drop_first(), i - stts[0].sample_count)
    }
}

proof fn lemma_stts_deltas_first(stts: Seq<SttsEntry>)
    requires
        stts.len() > 0,
    ensures
        stts_deltas(stts) =~= Seq::new(stts[0].sample_count as nat, |_i: int| stts[0].sample_delta) + stts_deltas(
            stts.drop_first(),
        ),
    decreases stts.len(),
{
    let rep0 = Seq::new(stts[0].sample_count as nat, |_i: int| stts[0].sample_delta);
    if stts.len() == 1 {
        assert(stts.drop_last() =~= Seq::<SttsEntry>::empty());
        assert(stts.drop_first() =~= Seq::<SttsEntry>::empty());
        assert(stts_deltas(stts.drop_last()) =~= Seq::<u32>::empty());
        assert(stts_deltas(stts.drop_first()) =~= Seq::<u32>::empty());
    } else {
        let front = stts.drop_last();
        lemma_stts_deltas_first(front);
        assert(front.drop_first() =~= stts.drop_first().drop_last());
        assert(front[0] == stts[0]);
        assert(stts.drop_first().last() == stts.last());
        let last = stts.last();
        let repl = Seq::new(last.sample_count as nat, |_i: int| last.sample_delta);
        assert(stts_deltas(stts) == stts_deltas(front) + repl);
        assert(stts_deltas(stts.drop_first()) == stts_deltas(stts.drop_first().drop_last()) + repl);
        assert((rep0 + stts_deltas(front.drop_first())) + repl =~= rep0 + (stts_deltas(front.drop_first()) + repl));
    }
}

proof fn lemma_stts_row_delta(stts: Seq<SttsEntry>, i: int)
    ensures
        stts_row_delta(stts, i) == if 0 <= i < stts_deltas(stts).len() {
            Some(stts_deltas(stts)[i])
        } else {
            None::<u32>
        },
    decreases stts.len(),
{
    if stts.len() == 0 {
    } else {
        lemma_stts_deltas_first(stts);
        if i >= 0 && i >= stts[0].sample_count {
            lemma_stts_row_delta(stts.drop_first(), i - stts[0].sample_count);
        }
    }
}

/// Each sample starts where the one before it ends: in a track with a
/// timescale, wherever the rows of the `stts` table reach sample `i + 1`,
/// its start is the start of sample `i` plus the duration that the rows
/// give sample `i` (wrapping at 2^64), and the first sample starts at 0.
pub proof fn law_sample_ticks_follow_stts_rows(t: SpecTrack, i: int)
    requires
        t.timescale != 0,
        0 <= i,
        i + 1 < t.sizes.len(),
        stts_row_delta(t.stts, i + 1) is Some,
    ensures
        stts_row_delta(t.stts, i) is Some,
        spec_sample_ticks(t)[0] == 0,
        spec_sample_ticks(t)[i + 1] as int == (spec_sample_ticks(t)[i] + stts_row_delta(t.stts, i)->0)
            % 0x1_0000_0000_0000_0000,
{
    let d = stts_deltas(t.stts);
    lemma_stts_row_delta(t.stts, i + 1);
    lemma_stts_row_delta(t.stts, i);
    let ticks = spec_sample_ticks(t);
    let m: int = 0x1_0000_0000_0000_0000;
    assert(ticks[0] == 0) by {
        assert(delta_sum(d, 0) == 0);
    }
    let a = delta_sum(d, i as nat);
    assert(delta_sum(d, (i + 1) as nat) == a + d[i]);
    assert(ticks[i] as int == a % m);
    assert(ticks[i + 1] as int == (a + d[i]) % m);
    assert(((a % m) + (d[i] as int % m)) % m == (a + d[i]) % m) by {
        vstd::arithmetic::div_mod::lemma_add_mod_noop(a, d[i] as int, m);
    }
    assert(d[i] as int % m == d[i] as int) by {
        vstd::arithmetic::div_mod::lemma_small_mod(d[i] as nat, m as nat);
    }
}

proof fn lemma_delta_sum_prefix(s: Seq<u32>, t: Seq<u32>, n: nat)
    requires
        n <= s.len(),
    ensures
        delta_sum(s + t, n) == delta_sum(s, n),
    decreases n,
{
    if n > 0 {
        lemma_delta_sum_prefix(s, t, (n - 1) as nat);
    }
}

proof fn lemma_stts_deltas_step(stts: Seq<SttsEntry>, e: int)
    requires
        0 <= e < stts.len(),
    ensures
        stts_deltas(stts.take(e + 1)) == stts_deltas(stts.take(e)) + Seq::new(
            stts[e].sample_count as nat,
            |_i: int| stts[e].sample_delta,
        ),
{
    assert(stts.take(e + 1).drop_last() =~= stts.take(e));
}

/// Start of each sample of `track` in ticks (see [`spec_sample_ticks`]).
pub fn sample_ticks(track: &Track) -> (r: Vec<u64>)
    ensures
        r@ == spec_sample_ticks(track@),
{
    let len = track.sizes.len();
    let mut times: Vec<u64> = Vec::new();
    let ghost d = stts_deltas(track.stts@);
    if track.timescale != 0 {
        let mut ticks: u64 = 0;
        let mut idx: usize = 0;
        let mut e: usize = 0;
        assert(track.stts@.take(0) =~= Seq::<SttsEntry>::empty());
        while e < track.stts.len()
            invariant
                len == track.sizes@.len(),
                e <= track.stts@.len(),
                idx <= len,
                idx <= stts_deltas(track.stts@.take(e as int)).len(),
                idx == len || idx == stts_deltas(track.stts@.take(e as int)).len(),
                times@.len() == idx,
                ticks == delta_sum(stts_deltas(track.stts@.take(e as int)), idx as nat) % 0x1_0000_0000_0000_0000,
                forall|i: int| 0 <= i < idx ==> #[trigger] times@[i] == (delta_sum(stts_deltas(track.stts@.take(e as int)), i as nat) % 0x1_0000_0000_0000_0000) as u64,
            decreases track.stts@.len() - e,
        {
            let entry = track.stts[e];
            let ghost fe = stts_deltas(track.stts@.take(e as int));
            let ghost rep = Seq::new(entry.sample_count as nat, |_i: int| entry.sample_delta);
            let ghost fe2 = fe + rep;
            proof {
                lemma_stts_deltas_step(track.stts@, e as int);
                assert forall|i: int| 0 <= i <= idx implies #[trigger] delta_sum(fe2, i as nat) == delta_sum(fe, i as nat) by {
                    lemma_delta_sum_prefix(fe, rep, i as nat);
                }
                lemma_delta_sum_prefix(fe, rep, idx as nat);
            }
            let mut k: u32 = 0;
            while k < entry.sample_count && idx < len
                invariant
                    len == track.sizes@.len(),
                    fe2 == fe + rep,
                    rep.len() == entry.sample_count,
                    forall|j: int| 0 <= j < rep.len() ==> #[trigger] rep[j] == entry.sample_delta,
                    k <= entry.sample_count,
                    idx <= len,
                    idx <= fe.len() + k,
                    idx == len || idx == fe.len() + k,
                    times@.len() == idx,
                    ticks == delta_sum(fe2, idx as nat) % 0x1_0000_0000_0000_0000,
                    forall|i: int| 0 <= i < idx ==> #[trigger] times@[i] == (delta_sum(fe2, i as nat) % 0x1_0000_0000_0000_0000) as u64,
                decreases entry.sample_count - k,
            {
                times.push(ticks);
                proof {
                    assert(fe2[idx as int] == entry.sample_delta);
                    assert(delta_sum(fe2, (idx + 1) as nat) == delta_sum(fe2, idx as nat) + entry.sample_delta);
                    vstd::arithmetic::div_mod::lemma_add_mod_noop(
                        delta_sum(fe2, idx as nat),
                        entry.sample_delta as int,
                        0x1_0000_0000_0000_0000,
                    );
                }
                ticks = ticks.wrapping_add(entry.sample_delta as u64);
                idx = idx + 1;
                k = k + 1;
            }
            e = e + 1;
        }
        assert(track.stts@.take(e as int) =~= track.stts@);
        assert(forall|i: int| 0 <= i < times@.len() ==> #[trigger] times@[i] == spec_sample_ticks(track@)[i]);
    }
    while times.len() < len
        invariant
            len == track.sizes@.len(),
            d == stts_deltas(track.stts@),
            times@.len() <= len,
            times@.len() < len ==> (track.timescale == 0 || times@.len() >= d.len()),
            forall|i: int| 0 <= i < times@.len() ==> #[trigger] times@[i] == spec_sample_ticks(track@)[i],
        decreases len - times.len(),
    {
        times.push(0);
    }
    assert(times@ =~= spec_sample_ticks(track@));
    times
}


/// Among the first `n` rows, the one with the largest first chunk that is
/// not after `chunk_no` (the last such row in table order), if any.
pub open spec fn stsc_best_candidate(stsc: Seq<StscEntry>, chunk_no: u32, n: nat) -> Option<nat>
    decreases n,
{
    if n == 0 {
        None
    } else {
        let prev = stsc_best_candidate(stsc, chunk_no, (n - 1) as nat);
        if stsc[n - 1].first_chunk <= chunk_no && match prev {
            None => true,
            Some(b) => stsc[b as int].first_chunk <= stsc[n - 1].first_chunk,
        } {
            Some((n - 1) as nat)
        } else {
            prev
        }
    }
}

/// Among the first `n` rows (`n` > 0), the one with the smallest first chunk
/// (the first such row in table order).
pub open spec fn stsc_min_first(stsc: Seq<StscEntry>, n: nat) -> nat
    decreases n,
{
    if n <= 1 {
        0
    } else {
        let m = stsc_min_first(stsc, (n - 1) as nat);
        if stsc[n - 1].first_chunk < stsc[m as int].first_chunk { (n - 1) as nat } else { m }
    }
}

/// The `stsc` row that governs chunk `chunk_no` (1-based): the row with the
/// largest first chunk not after it, or the row with the smallest first
/// chunk when every row starts later. Ties go as a stable sort of the table
/// by first chunk, followed by a scan that keeps the last row that starts at
/// or before the chunk, would resolve them.
pub open spec fn stsc_governing_entry(stsc: Seq<StscEntry>, chunk_no: u32) -> StscEntry {
    match stsc_best_candidate(stsc, chunk_no, stsc.len()) {
        Some(i) => stsc[i as int],
        None => stsc[stsc_min_first(stsc, stsc.len()) as int],
    }
}

proof fn lemma_stsc_indices(stsc: Seq<StscEntry>, chunk_no: u32, n: nat)
    requires
        n <= stsc.len(),
    ensures
        stsc_best_candidate(stsc, chunk_no, n) matches Some(b) ==> b < n,
        n > 0 ==> stsc_min_first(stsc, n) < n,
    decreases n,
{
    if n > 0 {
        lemma_stsc_indices(stsc, chunk_no, (n - 1) as nat);
    }
}

/// The `stsc` row that governs chunk `chunk_no` (see [`stsc_governing_entry`]).
pub fn governing_stsc_entry(stsc: &[StscEntry], chunk_no: u32) -> (r: StscEntry)
    requires
        stsc.len() > 0,
    ensures
        r == stsc_governing_entry(stsc@, chunk_no),
{
    let mut best: Option<usize> = None;
    let mut min: usize = 0;
    let mut i: usize = 0;
    while i < stsc.len()
        invariant
            0 < stsc.len(),
            i <= stsc.len(),
            min < stsc.len(),
            i > 0 ==> min as nat == stsc_min_first(stsc@, i as nat),
            i == 0 ==> min == 0,
            match stsc_best_candidate(stsc@, chunk_no, i as nat) {
                Some(b) => best == Some(b as usize),
                None => best.is_none(),
            },
        decreases stsc.len() - i,
    {
        proof {
            lemma_stsc_indices(stsc@, chunk_no, i as nat);
        }
        let e = stsc[i];
        let take = e.first_chunk <= chunk_no && match best {
            None => true,
            Some(b) => stsc[b].first_chunk <= e.first_chunk,
        };
        if take {
            best = Some(i);
        }
        if i > 0 && e.first_chunk < stsc[min].first_chunk {
            min = i;
        }
        i = i + 1;
    }
    proof {
        lemma_stsc_indices(stsc@, chunk_no, stsc@.len());
    }
    match best {
        Some(b) => stsc[b],
        None => stsc[min],
    }
}

/// A sample of a track: its 1-based index, where it lies in the file, its
/// size, and its start in track ticks (see [`spec_sample_ticks`]).
#[derive(Clone, Copy, Debug, PartialEq, Eq, Structural)]
pub struct SampleRef {
    pub index: usize,
    pub offset: u64,
    pub size: u32,
    pub ticks: u64,
}

/// Up to `count` samples of one chunk, starting with sample `start` (0-based)
/// at file offset `offset`, each right after the one before (offsets wrap
/// around at 2^64), stopping at the end of the sizes table.
pub open spec fn chunk_samples(t: SpecTrack, ticks: Seq<u64>, start: nat, count: nat, offset: u64) -> Seq<SampleRef>
    decreases count,
{
    if count == 0 || start >= t.sizes.len() {
        Seq::empty()
    } else {
        seq![SampleRef { index: (start + 1) as usize, offset, size: t.sizes[start as int], ticks: ticks[start as int] }]
            + chunk_samples(t, ticks, start + 1, (count - 1) as nat, wrapping_add(offset, t.sizes[start as int] as u64))
    }
}

/// The samples of chunks `c..` appended to `acc`: each chunk holds as many
/// samples as its governing `stsc` row says (chunk numbers are 1-based and
/// taken modulo 2^32), numbered on from the samples before it.
pub open spec fn refs_from(t: SpecTrack, ticks: Seq<u64>, c: nat, acc: Seq<SampleRef>) -> Seq<SampleRef>
    decreases t.chunk_offsets.len() - c,
{
    if c >= t.chunk_offsets.len() {
        acc
    } else {
        let e = stsc_governing_entry(t.stsc, ((c + 1) % 0x1_0000_0000) as u32);
        refs_from(
            t,
            ticks,
            c + 1,
            acc + chunk_samples(t, ticks, acc.len(), e.samples_per_chunk as nat, t.chunk_offsets[c as int]),
        )
    }
}

/// The samples of a track, in order, or why they cannot be laid out: the
/// track needs sizes, chunk offsets and a sample-to-chunk table, and the
/// chunks must hold exactly as many samples as the sizes table lists.
pub open spec fn spec_samples_for_track(t: SpecTrack) -> Result<Seq<SampleRef>, Mp4Error> {
    if t.sizes.len() == 0 {
        Err(Mp4Error::NoSampleSizes)
    } else if t.chunk_offsets.len() == 0 {
        Err(Mp4Error::NoChunkOffsets)
    } else if t.stsc.len() == 0 {
        Err(Mp4Error::NoSampleToChunk)
    } else {
        let refs = refs_from(t, spec_sample_ticks(t), 0, Seq::empty());
        if refs.len() != t.sizes.len() {
            Err(Mp4Error::SampleCountMismatch { built: refs.len() as usize, sizes: t.sizes.len() as usize })
        } else {
            Ok(refs)
        }
    }
}


/// Whether `s` is the sample at position `pos` of the track: numbered
/// `pos + 1`, with the size and start that the track lists for it.
pub open spec fn sample_at(t: SpecTrack, ticks: Seq<u64>, s: SampleRef, pos: int) -> bool {
    &&& 0 <= pos < t.sizes.len()
    &&& s.index == (pos + 1) as usize
    &&& s.size == t.sizes[pos]
    &&& s.ticks == ticks[pos]
}

/// Whether each of `refs` is the sample of its position.
pub open spec fn refs_follow_track(t: SpecTrack, ticks: Seq<u64>, refs: Seq<SampleRef>) -> bool {
    forall|i: int| 0 <= i < refs.len() ==> sample_at(t, ticks, #[trigger] refs[i], i)
}

proof fn lemma_chunk_samples_follow(t: SpecTrack, ticks: Seq<u64>, start: nat, count: nat, offset: u64)
    ensures
        forall|k: int| 0 <= k < chunk_samples(t, ticks, start, count, offset).len()
            ==> sample_at(t, ticks, #[trigger] chunk_samples(t, ticks, start, count, offset)[k], start + k),
    decreases count,
{
    if count > 0 && start < t.sizes.len() {
        let next = wrapping_add(offset, t.sizes[start as int] as u64);
        lemma_chunk_samples_follow(t, ticks, start + 1, (count - 1) as nat, next);
        let rest = chunk_samples(t, ticks, start + 1, (count - 1) as nat, next);
        let first = SampleRef { index: (start + 1) as usize, offset, size: t.sizes[start as int], ticks: ticks[start as int] };
        let cs = chunk_samples(t, ticks, start, count, offset);
        assert(cs == seq![first] + rest);
        assert forall|k: int| 0 <= k < cs.len() implies sample_at(t, ticks, #[trigger] cs[k], start + k) by {
            if k > 0 {
                assert(cs[k] == rest[k - 1]);
                assert(sample_at(t, ticks, rest[k - 1], (start + 1) + (k - 1)));
            } else {
                assert(cs[k] == first);
            }
        }
    }
}

proof fn lemma_refs_from_follow(t: SpecTrack, ticks: Seq<u64>, c: nat, acc: Seq<SampleRef>)
    requires
        refs_follow_track(t, ticks, acc),
    ensures
        refs_follow_track(t, ticks, refs_from(t, ticks, c, acc)),
    decreases t.chunk_offsets.len() - c,
{
    if c < t.chunk_offsets.len() {
        let e = stsc_governing_entry(t.stsc, ((c + 1) % 0x1_0000_0000) as u32);
        let cs = chunk_samples(t, ticks, acc.len(), e.samples_per_chunk as nat, t.chunk_offsets[c as int]);
        lemma_chunk_samples_follow(t, ticks, acc.len(), e.samples_per_chunk as nat, t.chunk_offsets[c as int]);
        let next = acc + cs;
        assert forall|i: int| 0 <= i < next.len() implies sample_at(t, ticks, #[trigger] next[i], i) by {
            if i >= acc.len() {
                assert(next[i] == cs[i - acc.len()]);
                assert(sample_at(t, ticks, cs[i - acc.len()], acc.len() + (i - acc.len())));
            } else {
                assert(next[i] == acc[i]);
            }
        }
        lemma_refs_from_follow(t, ticks, c + 1, next);
    }
}

/// The layout gives every sample that the sizes table lists, once and in
/// order: the `i`-th sample is numbered `i + 1` and has the `i`-th size and
/// the `i`-th start.
pub proof fn law_samples_follow_sizes(t: SpecTrack)
    ensures
        spec_samples_for_track(t) matches Ok(refs) ==> {
            &&& refs.len() == t.sizes.len()
            &&& refs_follow_track(t, spec_sample_ticks(t), refs)
        },
{
    lemma_refs_from_follow(t, spec_sample_ticks(t), 0, Seq::empty());
}

/// Lays out the samples of a track (see [`spec_samples_for_track`]).
pub fn samples_for_track(track: &Track) -> (r: Result<Vec<SampleRef>, Mp4Error>)
    ensures
        match spec_samples_for_track(track@) {
            Ok(refs) => r matches Ok(v) && v@ == refs,
            Err(e) => r matches Err(e2) && e2 == e,
        },
{
    if track.sizes.len() == 0 {
        return Err(Mp4Error::NoSampleSizes);
    }
    if track.chunk_offsets.len() == 0 {
        return Err(Mp4Error::NoChunkOffsets);
    }
    if track.stsc.len() == 0 {
        return Err(Mp4Error::NoSampleToChunk);
    }
    let ghost t = track@;
    let times = sample_ticks(track);
    let ghost ticks = times@;
    let mut refs: Vec<SampleRef> = Vec::new();
    let mut sample_index: usize = 0;
    let mut chunk_idx: usize = 0;
    while chunk_idx < track.chunk_offsets.len()
        invariant
            t == track@,
            ticks == times@,
            ticks == spec_sample_ticks(t),
            t.stsc.len() > 0,
            chunk_idx <= t.chunk_offsets.len(),
            sample_index == refs@.len(),
            sample_index <= t.sizes.len(),
            refs_from(t, ticks, 0, Seq::empty()) == refs_from(t, ticks, chunk_idx as nat, refs@),
        decreases t.chunk_offsets.len() - chunk_idx,
    {
        let chunk_no = ((chunk_idx as u64 + 1) % 0x1_0000_0000) as u32;
        let entry = governing_stsc_entry(track.stsc.as_slice(), chunk_no);
        let chunk_offset = track.chunk_offsets[chunk_idx];
        let ghost start_refs = refs@;
        let ghost start_index = sample_index as nat;
        let mut offset = chunk_offset;
        let mut k: u32 = 0;
        while k < entry.samples_per_chunk && sample_index < track.sizes.len()
            invariant
                t == track@,
                ticks == times@,
                ticks.len() == t.sizes.len(),
                sample_index == refs@.len(),
                sample_index <= t.sizes.len(),
                k <= entry.samples_per_chunk,
                refs@ + chunk_samples(t, ticks, sample_index as nat, (entry.samples_per_chunk - k) as nat, offset)
                    == start_refs + chunk_samples(t, ticks, start_index, entry.samples_per_chunk as nat, chunk_offset),
            decreases entry.samples_per_chunk - k,
        {
            let size = track.sizes[sample_index];
            let sref = SampleRef { index: sample_index + 1, offset, size, ticks: times[sample_index] };
            let ghost before = refs@;
            refs.push(sref);
            assert(before + chunk_samples(t, ticks, sample_index as nat, (entry.samples_per_chunk - k) as nat, offset)
                =~= refs@ + chunk_samples(t, ticks, (sample_index + 1) as nat, (entry.samples_per_chunk - (k + 1)) as nat, offset.wrapping_add(size as u64)));
            offset = offset.wrapping_add(size as u64);
            sample_index = sample_index + 1;
            k = k + 1;
        }
        assert(refs@ =~= start_refs + chunk_samples(t, ticks, start_index, entry.samples_per_chunk as nat, chunk_offset));
        chunk_idx = chunk_idx + 1;
    }
    proof {
        lemma_refs_from_len(t, ticks, chunk_idx as nat, refs@);
    }
    if refs.len() != track.sizes.len() {
        return Err(Mp4Error::SampleCountMismatch { built: refs.len(), sizes: track.sizes.len() });
    }
    Ok(refs)
}

proof fn lemma_refs_from_len(t: SpecTrack, ticks: Seq<u64>, c: nat, acc: Seq<SampleRef>)
    requires
        c >= t.chunk_offsets.len(),
    ensures
        refs_from(t, ticks, c, acc) == acc,
{
}

/// Whether no two rows of the table start at the same chunk.
pub open spec fn first_chunks_distinct(stsc: Seq<StscEntry>) -> bool {
    forall|i: int, j: int|
        0 <= i < stsc.len() && 0 <= j < stsc.len() && i != j ==> #[trigger] stsc[i].first_chunk
            != #[trigger] stsc[j].first_chunk
}

proof fn lemma_best_candidate_max(stsc: Seq<StscEntry>, chunk_no: u32, n: nat)
    requires
        n <= stsc.len(),
    ensures
        stsc_best_candidate(stsc, chunk_no, n) is None <==> forall|j: int|
            0 <= j < n ==> #[trigger] stsc[j].first_chunk > chunk_no,
        stsc_best_candidate(stsc, chunk_no, n) matches Some(b) ==> {
            &&& b < n
            &&& stsc[b as int].first_chunk <= chunk_no
            &&& forall|j: int|
                0 <= j < n && #[trigger] stsc[j].first_chunk <= chunk_no ==> stsc[j].first_chunk
                    <= stsc[b as int].first_chunk
        },
    decreases n,
{
    if n > 0 {
        lemma_best_candidate_max(stsc, chunk_no, (n - 1) as nat);
    }
}

proof fn lemma_min_first_min(stsc: Seq<StscEntry>, n: nat)
    requires
        0 < n <= stsc.len(),
    ensures
        stsc_min_first(stsc, n) < n,
        forall|j: int| 0 <= j < n ==> stsc[stsc_min_first(stsc, n) as int].first_chunk <= #[trigger] stsc[j].first_chunk,
    decreases n,
{
    if n > 1 {
        lemma_min_first_min(stsc, (n - 1) as nat);
    }
}

proof fn lemma_same_row_by_first_chunk(s1: Seq<StscEntry>, s2: Seq<StscEntry>, i: int, k: int)
    requires
        first_chunks_distinct(s1),
        s1.to_multiset() == s2.to_multiset(),
        0 <= i < s1.len(),
        0 <= k < s2.len(),
        s1[i].first_chunk == s2[k].first_chunk,
    ensures
        s1[i] == s2[k],
{
    broadcast use vstd::seq_lib::group_to_multiset_ensures;

    assert(s2.contains(s2[k]));
    assert(s2.to_multiset().count(s2[k]) > 0);
    assert(s1.contains(s2[k]));
    let m = choose|m: int| 0 <= m < s1.len() && s1[m] == s2[k];
    assert(s1[m].first_chunk == s1[i].first_chunk);
}

proof fn lemma_governing_entry_reordered(s1: Seq<StscEntry>, s2: Seq<StscEntry>, chunk_no: u32)
    requires
        s1.len() > 0,
        first_chunks_distinct(s1),
        first_chunks_distinct(s2),
        s1.to_multiset() == s2.to_multiset(),
    ensures
        stsc_governing_entry(s1, chunk_no) == stsc_governing_entry(s2, chunk_no),
{
    broadcast use vstd::seq_lib::group_to_multiset_ensures;

    assert(s1.len() == s2.len()) by {
        assert(s1.len() == s1.to_multiset().len());
        assert(s2.len() == s2.to_multiset().len());
    }
    lemma_best_candidate_max(s1, chunk_no, s1.len());
    lemma_best_candidate_max(s2, chunk_no, s2.len());
    lemma_min_first_min(s1, s1.len());
    lemma_min_first_min(s2, s2.len());
    // every row of one table is a row of the other
    assert forall|i: int| 0 <= i < s1.len() implies s2.contains(#[trigger] s1[i]) by {
        assert(s1.contains(s1[i]));
        assert(s1.to_multiset().count(s1[i]) > 0);
    }
    assert forall|i: int| 0 <= i < s2.len() implies s1.contains(#[trigger] s2[i]) by {
        assert(s2.contains(s2[i]));
        assert(s2.to_multiset().count(s2[i]) > 0);
    }
    match stsc_best_candidate(s1, chunk_no, s1.len()) {
        Some(b1) => {
            assert(s2.contains(s1[b1 as int]));
            let k1 = choose|k: int| 0 <= k < s2.len() && s2[k] == s1[b1 as int];
            assert(s2[k1].first_chunk <= chunk_no);
            let b2 = stsc_best_candidate(s2, chunk_no, s2.len())->0;
            assert(s1.contains(s2[b2 as int]));
            let k2 = choose|k: int| 0 <= k < s1.len() && s1[k] == s2[b2 as int];
            assert(s1[k2].first_chunk <= chunk_no);
            assert(s1[k2].first_chunk <= s1[b1 as int].first_chunk);
            assert(s2[k1].first_chunk <= s2[b2 as int].first_chunk);
            lemma_same_row_by_first_chunk(s1, s2, b1 as int, b2 as int);
        },
        None => {
            assert(stsc_best_candidate(s2, chunk_no, s2.len()) is None) by {
                if stsc_best_candidate(s2, chunk_no, s2.len()) is Some {
                    let b2 = stsc_best_candidate(s2, chunk_no, s2.len())->0;
                    assert(s1.contains(s2[b2 as int]));
                    let k2 = choose|k: int| 0 <= k < s1.len() && s1[k] == s2[b2 as int];
                    assert(s1[k2].first_chunk <= chunk_no);
                }
            }
            let m1 = stsc_min_first(s1, s1.len()) as int;
            let m2 = stsc_min_first(s2, s2.len()) as int;
            assert(s2.contains(s1[m1]));
            let k1 = choose|k: int| 0 <= k < s2.len() && s2[k] == s1[m1];
            assert(s1.contains(s2[m2]));
            let k2 = choose|k: int| 0 <= k < s1.len() && s1[k] == s2[m2];
            assert(s2[m2].first_chunk <= s2[k1].first_chunk);
            assert(s1[m1].first_chunk <= s1[k2].first_chunk);
            lemma_same_row_by_first_chunk(s1, s2, m1, m2);
        },
    }
}

proof fn lemma_chunk_samples_same_sizes(t1: SpecTrack, t2: SpecTrack, ticks: Seq<u64>, start: nat, count: nat, offset: u64)
    requires
        t1.sizes == t2.sizes,
    ensures
        chunk_samples(t1, ticks, start, count, offset) == chunk_samples(t2, ticks, start, count, offset),
    decreases count,
{
    if count > 0 && start < t1.sizes.len() {
        lemma_chunk_samples_same_sizes(
            t1,
            t2,
            ticks,
            start + 1,
            (count - 1) as nat,
            wrapping_add(offset, t1.sizes[start as int] as u64),
        );
    }
}

proof fn lemma_refs_from_reordered(t1: SpecTrack, t2: SpecTrack, ticks: Seq<u64>, c: nat, acc: Seq<SampleRef>)
    requires
        t2 == (SpecTrack { stsc: t2.stsc, ..t1 }),
        t1.stsc.len() > 0,
        first_chunks_distinct(t1.stsc),
        first_chunks_distinct(t2.stsc),
        t1.stsc.to_multiset() == t2.stsc.to_multiset(),
    ensures
        refs_from(t1, ticks, c, acc) == refs_from(t2, ticks, c, acc),
    decreases t1.chunk_offsets.len() - c,
{
    if c < t1.chunk_offsets.len() {
        let chunk_no = ((c + 1) % 0x1_0000_0000) as u32;
        lemma_governing_entry_reordered(t1.stsc, t2.stsc, chunk_no);
        let e = stsc_governing_entry(t1.stsc, chunk_no);
        lemma_chunk_samples_same_sizes(t1, t2, ticks, acc.len(), e.samples_per_chunk as nat, t1.chunk_offsets[c as int]);
        let next = acc + chunk_samples(t1, ticks, acc.len(), e.samples_per_chunk as nat, t1.chunk_offsets[c as int]);
        lemma_refs_from_reordered(t1, t2, ticks, c + 1, next);
    }
}

/// The order of the sample-to-chunk table does not matter: a track whose
/// table holds the same rows in another order, no two rows starting at the
/// same chunk, lays out the same samples (or fails the same way).
pub proof fn law_samples_ignore_stsc_order(t: SpecTrack, stsc2: Seq<StscEntry>)
    requires
        first_chunks_distinct(t.stsc),
        stsc2.to_multiset() == t.stsc.to_multiset(),
    ensures
        spec_samples_for_track(SpecTrack { stsc: stsc2, ..t }) == spec_samples_for_track(t),
{
    broadcast use vstd::seq_lib::group_to_multiset_ensures;

    let t2 = SpecTrack { stsc: stsc2, ..t };
    assert(stsc2.len() == t.stsc.len()) by {
        assert(stsc2.len() == stsc2.to_multiset().len());
        assert(t.stsc.len() == t.stsc.to_multiset().len());
    }
    assert(t.stsc.no_duplicates()) by {
        assert forall|x: int, y: int| 0 <= x < t.stsc.len() && 0 <= y < t.stsc.len() && x != y implies t.stsc[x]
            != t.stsc[y] by {
            assert(t.stsc[x].first_chunk != t.stsc[y].first_chunk);
        }
    }
    t.stsc.lemma_multiset_has_no_duplicates();
    stsc2.lemma_multiset_has_no_duplicates_conv();
    assert(first_chunks_distinct(stsc2)) by {
        assert forall|i: int, j: int|
            0 <= i < stsc2.len() && 0 <= j < stsc2.len() && i != j implies #[trigger] stsc2[i].first_chunk
                != #[trigger] stsc2[j].first_chunk by {
            assert(stsc2.contains(stsc2[i]));
            assert(stsc2.to_multiset().count(stsc2[i]) > 0);
            let a = choose|a: int| 0 <= a < t.stsc.len() && t.stsc[a] == stsc2[i];
            assert(stsc2.contains(stsc2[j]));
            assert(stsc2.to_multiset().count(stsc2[j]) > 0);
            let b = choose|b: int| 0 <= b < t.stsc.len() && t.stsc[b] == stsc2[j];
            assert(stsc2[i] != stsc2[j]);
            if a == b {
                assert(false);
            }
        }
    }
    assert(spec_sample_ticks(t2) =~= spec_sample_ticks(t));
    if t.sizes.len() != 0 && t.chunk_offsets.len() != 0 && t.stsc.len() != 0 {
        lemma_refs_from_reordered(t, t2, spec_sample_ticks(t), 0, Seq::empty());
    }
}


/// Bytes read from a file, and where they start.
pub struct Chunk {
    pub offset: u64,
    pub bytes: Vec<u8>,
}

/// What is known of a file: its length and the byte ranges read from it so
/// far. The parsers of this module read through a view; where they need
/// bytes that it lacks, they answer [`Mp4Error::NeedBytes`], and the caller
/// reads them, adds them with [`FileView::add_chunk`] and asks again.
pub struct FileView {
    pub len: u64,
    pub chunks: Vec<Chunk>,
}

/// The chunk covers `offset..offset + len`.
pub open spec fn chunk_covers(c: Chunk, offset: int, len: int) -> bool {
    c.offset <= offset && offset + len <= c.offset + c.bytes@.len()
}

/// Index of the first chunk from `i` on that covers `offset..offset + len`.
pub open spec fn spec_first_cover(chunks: Seq<Chunk>, offset: int, len: int, i: nat) -> Option<nat>
    decreases chunks.len() - i,
{
    if i >= chunks.len() {
        None
    } else if chunk_covers(chunks[i as int], offset, len) {
        Some(i)
    } else {
        spec_first_cover(chunks, offset, len, i + 1)
    }
}

/// A read of `len` bytes at `offset`: past the end of the file it fails as
/// reading the file would; otherwise it gives the bytes that the first chunk
/// covering the range holds, or asks for them.
pub open spec fn spec_read(v: FileView, offset: int, len: int) -> Result<Seq<u8>, Mp4Error> {
    if offset + len > v.len {
        Err(Mp4Error::ReadPastEnd { offset: offset as u64, len: len as u64 })
    } else {
        match spec_first_cover(v.chunks@, offset, len, 0) {
            Some(i) => {
                let c = v.chunks@[i as int];
                Ok(c.bytes@.subrange(offset - c.offset, offset - c.offset + len))
            },
            None => Err(Mp4Error::NeedBytes { offset: offset as u64, len: len as u64 }),
        }
    }
}

/// `r` is the vector form of the byte result `s`.
pub open spec fn bytes_result(r: Result<Vec<u8>, Mp4Error>, s: Result<Seq<u8>, Mp4Error>) -> bool {
    match s {
        Ok(b) => r matches Ok(v) && v@ == b,
        Err(e) => r matches Err(e2) && e2 == e,
    }
}

proof fn lemma_first_cover_in_range(chunks: Seq<Chunk>, offset: int, len: int, i: nat)
    ensures
        spec_first_cover(chunks, offset, len, i) matches Some(k) ==> i <= k < chunks.len() && chunk_covers(chunks[k as int], offset, len),
    decreases chunks.len() - i,
{
    if i < chunks.len() && !chunk_covers(chunks[i as int], offset, len) {
        lemma_first_cover_in_range(chunks, offset, len, i + 1);
    }
}

impl FileView {
    /// A view of a file of `len` bytes of which nothing has been read.
    pub fn new(len: u64) -> (r: FileView)
        ensures
            r.len == len,
            r.chunks@.len() == 0,
    {
        FileView { len, chunks: Vec::new() }
    }

    /// Records that the file holds `bytes` at `offset`.
    pub fn add_chunk(&mut self, offset: u64, bytes: Vec<u8>)
        ensures
            final(self).len == old(self).len,
            final(self).chunks@ == old(self).chunks@.push(Chunk { offset, bytes }),
    {
        self.chunks.push(Chunk { offset, bytes });
    }

    /// Reads `len` bytes at `offset` (see [`spec_read`]).
    pub fn read(&self, offset: u64, len: u64) -> (r: Result<Vec<u8>, Mp4Error>)
        ensures
            bytes_result(r, spec_read(*self, offset as int, len as int)),
    {
        if len > self.len || offset > self.len - len {
            return Err(Mp4Error::ReadPastEnd { offset, len });
        }
        proof {
            lemma_first_cover_in_range(self.chunks@, offset as int, len as int, 0);
        }
        let mut i: usize = 0;
        while i < self.chunks.len()
            invariant
                i <= self.chunks@.len(),
                len <= self.len,
                offset <= self.len - len,
                spec_first_cover(self.chunks@, offset as int, len as int, 0)
                    == spec_first_cover(self.chunks@, offset as int, len as int, i as nat),
            decreases self.chunks@.len() - i,
        {
            let c = &self.chunks[i];
            let n = c.bytes.len() as u64;
            if c.offset <= offset && offset - c.offset <= n && len <= n - (offset - c.offset) {
                let start = (offset - c.offset) as usize;
                let end = start + len as usize;
                assert(chunk_covers(self.chunks@[i as int], offset as int, len as int));
                assert(spec_first_cover(self.chunks@, offset as int, len as int, i as nat) == Some(i as nat));
                return Ok(copy_range(c.bytes.as_slice(), start, end));
            }
            i = i + 1;
        }
        Err(Mp4Error::NeedBytes { offset, len })
    }
}

/// Header of one box: its four-character type (as text), header and total
/// size, and where it starts and ends in the file.
pub struct BoxHeader {
    pub typ: String,
    pub header_size: u64,
    pub size: u64,
    pub start: u64,
    pub end: u64,
}

/// Mathematical model of a [`BoxHeader`].
pub struct SpecBox {
    pub typ: Seq<char>,
    pub header_size: u64,
    pub size: u64,
    pub start: u64,
    pub end: u64,
}

impl View for BoxHeader {
    type V = SpecBox;

    open spec fn view(&self) -> SpecBox {
        SpecBox { typ: self.typ@, header_size: self.header_size, size: self.size, start: self.start, end: self.end }
    }
}

pub open spec fn boxes_view(v: Seq<BoxHeader>) -> Seq<SpecBox> {
    v.map_values(|b: BoxHeader| b@)
}

/// The boxes that lie one after another from `offset` on, within `end`: each
/// header gives a 32-bit size (1: a 64-bit size follows the type; 0: the box
/// runs to `end`) and a type. The walk stops, keeping the boxes found, where
/// fewer than 8 bytes remain, where the 16 header bytes cannot be read, or at
/// a box whose size is smaller than its header or that runs past `end`.
pub open spec fn spec_boxes_from(v: FileView, offset: int, end: int) -> Result<Seq<SpecBox>, Mp4Error>
    decreases end - offset,
{
    if offset + 8 > end {
        Ok(Seq::empty())
    } else {
        match spec_read(v, offset, 16) {
            Err(Mp4Error::NeedBytes { offset: o, len: l }) => Err(Mp4Error::NeedBytes { offset: o, len: l }),
            Err(_) => Ok(Seq::empty()),
            Ok(b) => {
                let size32 = spec_be_u32(b, 0);
                let header: int = if size32 == 1 { 16 } else { 8 };
                let size: int = if size32 == 1 {
                    spec_be_u64(b, 8)
                } else if size32 == 0 {
                    end - offset
                } else {
                    size32
                };
                if size < header || offset + size > end {
                    Ok(Seq::empty())
                } else {
                    match spec_boxes_from(v, offset + size, end) {
                        Ok(rest) => Ok(seq![SpecBox {
                            typ: spec_utf8_lossy(b.subrange(4, 8)),
                            header_size: header as u64,
                            size: size as u64,
                            start: offset as u64,
                            end: (offset + size) as u64,
                        }] + rest),
                        Err(e) => Err(e),
                    }
                }
            },
        }
    }
}

/// Every box lies within the range it was read from, after its start, and
/// is at least as large as its header of 8 or 16 bytes.
pub open spec fn boxes_within(bs: Seq<SpecBox>, start: int, end: int) -> bool {
    forall|k: int| 0 <= k < bs.len() ==> {
        let b = #[trigger] bs[k];
        &&& start <= b.start
        &&& b.end <= end
        &&& b.end == b.start + b.size
        &&& 8 <= b.header_size <= b.size
    }
}

/// A read that succeeds gives as many bytes as were asked for.
pub proof fn lemma_read_len(v: FileView, offset: int, len: int)
    requires
        0 <= len,
    ensures
        spec_read(v, offset, len) matches Ok(b) ==> b.len() == len,
{
    lemma_first_cover_in_range(v.chunks@, offset, len, 0);
}

pub proof fn lemma_boxes_within(v: FileView, offset: int, end: int)
    requires
        0 <= offset,
        end <= u64::MAX,
    ensures
        spec_boxes_from(v, offset, end) matches Ok(bs) ==> boxes_within(bs, offset, end),
    decreases end - offset,
{
    if offset + 8 <= end {
        if let Ok(b) = spec_read(v, offset, 16) {
            let size32 = spec_be_u32(b, 0);
            let header: int = if size32 == 1 { 16 } else { 8 };
            let size: int = if size32 == 1 { spec_be_u64(b, 8) } else if size32 == 0 { end - offset } else { size32 };
            if !(size < header || offset + size > end) {
                lemma_boxes_within(v, offset + size, end);
                if let Ok(bs) = spec_boxes_from(v, offset, end) {
                    assert forall|k: int| 0 <= k < bs.len() implies {
                        let b = #[trigger] bs[k];
                        &&& offset <= b.start
                        &&& b.end <= end
                        &&& b.end == b.start + b.size
                        &&& 8 <= b.header_size <= b.size
                    } by {
                        if k > 0 {
                            let rest = spec_boxes_from(v, offset + size, end)->Ok_0;
                            assert(bs[k] == rest[k - 1]);
                        }
                    }
                }
            }
        }
    }
}

/// Reads the headers of the boxes that lie one after another in
/// `start..end` (see [`spec_boxes_from`]).
pub fn read_boxes(view: &FileView, start: u64, end: u64) -> (r: Result<Vec<BoxHeader>, Mp4Error>)
    ensures
        match spec_boxes_from(*view, start as int, end as int) {
            Ok(bs) => r matches Ok(v) && boxes_view(v@) == bs,
            Err(e) => r matches Err(e2) && e2 == e,
        },
        r matches Ok(v) ==> boxes_within(boxes_view(v@), start as int, end as int),
{
    proof {
        lemma_boxes_within(*view, start as int, end as int);
    }
    let ghost full = spec_boxes_from(*view, start as int, end as int);
    let mut boxes: Vec<BoxHeader> = Vec::new();
    let mut offset = start;
    assert(boxes_view(boxes@) =~= Seq::<SpecBox>::empty());
    while end >= 8 && offset <= end - 8
        invariant
            start <= offset,
            spec_boxes_from(*view, start as int, end as int) matches Ok(bs) ==> boxes_within(bs, start as int, end as int),
            spec_boxes_from(*view, start as int, end as int) == match spec_boxes_from(*view, offset as int, end as int) {
                Ok(rest) => Ok(boxes_view(boxes@) + rest),
                Err(e) => Err(e),
            },
        decreases end - offset,
    {
        let ghost before = boxes_view(boxes@);
        proof {
            lemma_read_len(*view, offset as int, 16);
        }
        let bytes = match view.read(offset, 16) {
            Ok(bytes) => bytes,
            Err(Mp4Error::NeedBytes { offset: o, len: l }) => return Err(Mp4Error::NeedBytes { offset: o, len: l }),
            Err(_) => {
                assert(boxes_view(boxes@) + Seq::<SpecBox>::empty() =~= boxes_view(boxes@));
                return Ok(boxes);
            },
        };
        let size32 = be_u32_at(bytes.as_slice(), 0);
        let mut header_size: u64 = 8;
        let mut size: u64 = size32 as u64;
        if size32 == 1 {
            size = be_u64_at(bytes.as_slice(), 8);
            header_size = 16;
        } else if size32 == 0 {
            size = end - offset;
        }
        if size < header_size || size > end - offset {
            assert(boxes_view(boxes@) + Seq::<SpecBox>::empty() =~= boxes_view(boxes@));
            return Ok(boxes);
        }
        let typ_bytes = copy_range(bytes.as_slice(), 4, 8);
        let typ = utf8_lossy(typ_bytes.as_slice());
        boxes.push(BoxHeader { typ, header_size, size, start: offset, end: offset + size });
        proof {
            if let Ok(rest) = spec_boxes_from(*view, (offset + size) as int, end as int) {
                assert(boxes_view(boxes@) + rest =~= before + (seq![boxes@.last()@] + rest));
            }
        }
        offset = offset + size;
    }
    assert(boxes_view(boxes@) + Seq::<SpecBox>::empty() =~= boxes_view(boxes@));
    Ok(boxes)
}


/// Where the payload of a box starts (offsets wrap around at 2^64).
pub open spec fn payload_start(b: SpecBox) -> u64 {
    wrapping_add(b.start, b.header_size)
}

/// Track id of a `tkhd` box: payload bytes 12..16, or 20..24 in a version-1
/// box.
pub open spec fn spec_parse_tkhd(v: FileView, b: SpecBox) -> Result<u32, Mp4Error> {
    let base = payload_start(b) as int;
    match spec_read(v, base, 24) {
        Err(e) => Err(e),
        Ok(bytes) => if bytes[0] == 1 {
            match spec_read(v, base, 36) {
                Err(e) => Err(e),
                Ok(b2) => Ok(spec_be_u32(b2, 20) as u32),
            }
        } else {
            Ok(spec_be_u32(bytes, 12) as u32)
        },
    }
}

/// Timescale of an `mdhd` box: payload bytes 12..16, or 20..24 in a
/// version-1 box.
pub open spec fn spec_parse_mdhd(v: FileView, b: SpecBox) -> Result<u32, Mp4Error> {
    let base = payload_start(b) as int;
    match spec_read(v, base, 24) {
        Err(e) => Err(e),
        Ok(bytes) => if bytes[0] == 1 {
            match spec_read(v, base, 32) {
                Err(e) => Err(e),
                Ok(b2) => Ok(spec_be_u32(b2, 20) as u32),
            }
        } else {
            Ok(spec_be_u32(bytes, 12) as u32)
        },
    }
}

/// Handler type (payload bytes 8..12) and name (payload bytes from 24 on,
/// without trailing NULs) of an `hdlr` box, whose payload must hold at least
/// 24 bytes.
pub open spec fn spec_parse_hdlr(v: FileView, b: SpecBox) -> Result<(Seq<char>, Seq<char>), Mp4Error> {
    let len = wrapping_sub(b.size, b.header_size) as int;
    match spec_read(v, payload_start(b) as int, len) {
        Err(e) => Err(e),
        Ok(bytes) => if bytes.len() < 24 {
            Err(Mp4Error::ShortHdlr)
        } else {
            Ok((
                spec_utf8_lossy(bytes.subrange(8, 12)),
                if bytes.len() > 24 {
                    trim_trailing_nuls(spec_utf8_lossy(bytes.subrange(24, bytes.len() as int)))
                } else {
                    Seq::empty()
                },
            ))
        },
    }
}

/// Type of the first sample entry of an `stsd` box (payload bytes 12..16),
/// or empty text when the box lists no entries.
pub open spec fn spec_parse_stsd(v: FileView, b: SpecBox) -> Result<Seq<char>, Mp4Error> {
    match spec_read(v, payload_start(b) as int, 16) {
        Err(e) => Err(e),
        Ok(bytes) => if spec_be_u32(bytes, 4) == 0 {
            Ok(Seq::empty())
        } else {
            Ok(spec_utf8_lossy(bytes.subrange(12, 16)))
        },
    }
}

/// Sample sizes of an `stsz` box: `count` copies of the common size where
/// one is given, else the `count` big-endian sizes after the header.
pub open spec fn spec_parse_stsz(v: FileView, b: SpecBox) -> Result<Seq<u32>, Mp4Error> {
    let base = payload_start(b);
    match spec_read(v, base as int, 12) {
        Err(e) => Err(e),
        Ok(h) => {
            let sample_size = spec_be_u32(h, 4) as u32;
            let count = spec_be_u32(h, 8) as nat;
            if sample_size != 0 {
                Ok(Seq::new(count, |_i: int| sample_size))
            } else {
                match spec_read(v, wrapping_add(base, 12) as int, (count * 4) as int) {
                    Err(e) => Err(e),
                    Ok(bytes) => Ok(Seq::new(count, |i: int| spec_be_u32(bytes, 4 * i) as u32)),
                }
            }
        },
    }
}

/// Entry count of a table box (payload bytes 4..8) and the table after it.
pub open spec fn spec_table(v: FileView, b: SpecBox, entry_size: nat) -> Result<(nat, Seq<u8>), Mp4Error> {
    let base = payload_start(b);
    match spec_read(v, base as int, 8) {
        Err(e) => Err(e),
        Ok(h) => {
            let count = spec_be_u32(h, 4) as nat;
            match spec_read(v, wrapping_add(base, 8) as int, (count * entry_size) as int) {
                Err(e) => Err(e),
                Ok(bytes) => Ok((count, bytes)),
            }
        },
    }
}

/// 32-bit chunk offsets of an `stco` box.
pub open spec fn spec_parse_stco(v: FileView, b: SpecBox) -> Result<Seq<u64>, Mp4Error> {
    match spec_table(v, b, 4) {
        Err(e) => Err(e),
        Ok((count, bytes)) => Ok(Seq::new(count, |i: int| spec_be_u32(bytes, 4 * i) as u64)),
    }
}

/// 64-bit chunk offsets of a `co64` box.
pub open spec fn spec_parse_co64(v: FileView, b: SpecBox) -> Result<Seq<u64>, Mp4Error> {
    match spec_table(v, b, 8) {
        Err(e) => Err(e),
        Ok((count, bytes)) => Ok(Seq::new(count, |i: int| spec_be_u64(bytes, 8 * i) as u64)),
    }
}

/// Rows of an `stsc` box.
pub open spec fn spec_parse_stsc(v: FileView, b: SpecBox) -> Result<Seq<StscEntry>, Mp4Error> {
    match spec_table(v, b, 12) {
        Err(e) => Err(e),
        Ok((count, bytes)) => Ok(Seq::new(
            count,
            |i: int| StscEntry {
                first_chunk: spec_be_u32(bytes, 12 * i) as u32,
                samples_per_chunk: spec_be_u32(bytes, 12 * i + 4) as u32,
                sample_description_index: spec_be_u32(bytes, 12 * i + 8) as u32,
            },
        )),
    }
}

/// Rows of an `stts` box.
pub open spec fn spec_parse_stts(v: FileView, b: SpecBox) -> Result<Seq<SttsEntry>, Mp4Error> {
    match spec_table(v, b, 8) {
        Err(e) => Err(e),
        Ok((count, bytes)) => Ok(Seq::new(
            count,
            |i: int| SttsEntry {
                sample_count: spec_be_u32(bytes, 8 * i) as u32,
                sample_delta: spec_be_u32(bytes, 8 * i + 4) as u32,
            },
        )),
    }
}

fn box_is(b: &BoxHeader, name: &str) -> (r: bool)
    ensures
        r == (b.typ@ == name@),
{
    let s = name.to_owned();
    b.typ == s
}

fn payload_offset(b: &BoxHeader) -> (r: u64)
    ensures
        r == payload_start(b@),
{
    b.start.wrapping_add(b.header_size)
}

fn parse_tkhd(view: &FileView, b: &BoxHeader) -> (r: Result<u32, Mp4Error>)
    ensures
        match spec_parse_tkhd(*view, b@) {
            Ok(x) => r == Ok::<u32, Mp4Error>(x),
            Err(e) => r matches Err(e2) && e2 == e,
        },
{
    let base = payload_offset(b);
    proof {
        lemma_read_len(*view, base as int, 24);
        lemma_read_len(*view, base as int, 36);
    }
    let bytes = view.read(base, 24)?;
    if bytes[0] == 1 {
        let b2 = view.read(base, 36)?;
        return Ok(be_u32_at(b2.as_slice(), 20));
    }
    Ok(be_u32_at(bytes.as_slice(), 12))
}

fn parse_mdhd(view: &FileView, b: &BoxHeader) -> (r: Result<u32, Mp4Error>)
    ensures
        match spec_parse_mdhd(*view, b@) {
            Ok(x) => r == Ok::<u32, Mp4Error>(x),
            Err(e) => r matches Err(e2) && e2 == e,
        },
{
    let base = payload_offset(b);
    proof {
        lemma_read_len(*view, base as int, 24);
        lemma_read_len(*view, base as int, 32);
    }
    let bytes = view.read(base, 24)?;
    if bytes[0] == 1 {
        let b2 = view.read(base, 32)?;
        return Ok(be_u32_at(b2.as_slice(), 20));
    }
    Ok(be_u32_at(bytes.as_slice(), 12))
}

fn parse_hdlr(view: &FileView, b: &BoxHeader) -> (r: Result<(String, String), Mp4Error>)
    ensures
        match spec_parse_hdlr(*view, b@) {
            Ok((h, n)) => r matches Ok((h2, n2)) && h2@ == h && n2@ == n,
            Err(e) => r matches Err(e2) && e2 == e,
        },
{
    let len = b.size.wrapping_sub(b.header_size);
    let base = payload_offset(b);
    proof {
        lemma_read_len(*view, base as int, len as int);
    }
    let bytes = view.read(base, len)?;
    if bytes.len() < 24 {
        return Err(Mp4Error::ShortHdlr);
    }
    let handler = utf8_lossy(copy_range(bytes.as_slice(), 8, 12).as_slice());
    let name = if bytes.len() > 24 {
        trim_nuls(&utf8_lossy(copy_range(bytes.as_slice(), 24, bytes.len()).as_slice()))
    } else {
        String::new()
    };
    Ok((handler, name))
}

fn parse_stsd(view: &FileView, b: &BoxHeader) -> (r: Result<String, Mp4Error>)
    ensures
        match spec_parse_stsd(*view, b@) {
            Ok(x) => r matches Ok(s) && s@ == x,
            Err(e) => r matches Err(e2) && e2 == e,
        },
{
    let base = payload_offset(b);
    proof {
        lemma_read_len(*view, base as int, 16);
    }
    let bytes = view.read(base, 16)?;
    if be_u32_at(bytes.as_slice(), 4) == 0 {
        return Ok(String::new());
    }
    Ok(utf8_lossy(copy_range(bytes.as_slice(), 12, 16).as_slice()))
}

fn parse_stsz(view: &FileView, b: &BoxHeader) -> (r: Result<Vec<u32>, Mp4Error>)
    ensures
        match spec_parse_stsz(*view, b@) {
            Ok(x) => r matches Ok(s) && s@ == x,
            Err(e) => r matches Err(e2) && e2 == e,
        },
{
    let base = payload_offset(b);
    proof {
        lemma_read_len(*view, base as int, 12);
    }
    let header = view.read(base, 12)?;
    let sample_size = be_u32_at(header.as_slice(), 4);
    let count = be_u32_at(header.as_slice(), 8);
    let ghost target = spec_parse_stsz(*view, b@);
    let mut sizes: Vec<u32> = Vec::new();
    if sample_size != 0 {
        let mut i: u32 = 0;
        while i < count
            invariant
                i <= count,
                sizes@ =~= Seq::new(i as nat, |_j: int| sample_size),
            decreases count - i,
        {
            sizes.push(sample_size);
            i = i + 1;
        }
        return Ok(sizes);
    }
    proof {
        lemma_read_len(*view, wrapping_add(base, 12) as int, count as int * 4);
    }
    let bytes = view.read(base.wrapping_add(12), count as u64 * 4)?;
    let blen = bytes.len();
    let mut i: u32 = 0;
    while i < count
        invariant
            i <= count,
            blen == bytes@.len(),
            bytes@.len() == count as int * 4,
            sizes@ =~= Seq::new(i as nat, |j: int| spec_be_u32(bytes@, 4 * j) as u32),
        decreases count - i,
    {
        let x = be_u32_at(bytes.as_slice(), 4 * i as usize);
        sizes.push(x);
        i = i + 1;
    }
    Ok(sizes)
}

fn read_table(view: &FileView, b: &BoxHeader, entry_size: u64) -> (r: Result<(u32, Vec<u8>), Mp4Error>)
    requires
        entry_size <= 12,
    ensures
        match spec_table(*view, b@, entry_size as nat) {
            Ok((count, bytes)) => r matches Ok((c, v)) && c == count && v@ == bytes && v@.len() == count * entry_size,
            Err(e) => r matches Err(e2) && e2 == e,
        },
{
    let base = payload_offset(b);
    proof {
        lemma_read_len(*view, base as int, 8);
    }
    let header = view.read(base, 8)?;
    let count = be_u32_at(header.as_slice(), 4);
    proof {
        lemma_read_len(*view, wrapping_add(base, 8) as int, count as int * entry_size);
    }
    assert(count as u64 * entry_size <= 12 * 0xffff_ffffu64) by (nonlinear_arith)
        requires
            entry_size <= 12,
            count <= 0xffff_ffffu32,
    ;
    let bytes = view.read(base.wrapping_add(8), count as u64 * entry_size)?;
    Ok((count, bytes))
}

fn parse_stco(view: &FileView, b: &BoxHeader) -> (r: Result<Vec<u64>, Mp4Error>)
    ensures
        match spec_parse_stco(*view, b@) {
            Ok(x) => r matches Ok(s) && s@ == x,
            Err(e) => r matches Err(e2) && e2 == e,
        },
{
    let (count, bytes) = read_table(view, b, 4)?;
    let mut out: Vec<u64> = Vec::new();
    let blen = bytes.len();
    let mut i: u32 = 0;
    while i < count
        invariant
            i <= count,
            blen == bytes@.len(),
            bytes@.len() == count as int * 4,
            out@ =~= Seq::new(i as nat, |j: int| spec_be_u32(bytes@, 4 * j) as u64),
        decreases count - i,
    {
        out.push(be_u32_at(bytes.as_slice(), 4 * i as usize) as u64);
        i = i + 1;
    }
    Ok(out)
}

fn parse_co64(view: &FileView, b: &BoxHeader) -> (r: Result<Vec<u64>, Mp4Error>)
    ensures
        match spec_parse_co64(*view, b@) {
            Ok(x) => r matches Ok(s) && s@ == x,
            Err(e) => r matches Err(e2) && e2 == e,
        },
{
    let (count, bytes) = read_table(view, b, 8)?;
    let mut out: Vec<u64> = Vec::new();
    let blen = bytes.len();
    let mut i: u32 = 0;
    while i < count
        invariant
            i <= count,
            blen == bytes@.len(),
            bytes@.len() == count as int * 8,
            out@ =~= Seq::new(i as nat, |j: int| spec_be_u64(bytes@, 8 * j) as u64),
        decreases count - i,
    {
        out.push(be_u64_at(bytes.as_slice(), 8 * i as usize));
        i = i + 1;
    }
    Ok(out)
}

fn parse_stsc(view: &FileView, b: &BoxHeader) -> (r: Result<Vec<StscEntry>, Mp4Error>)
    ensures
        match spec_parse_stsc(*view, b@) {
            Ok(x) => r matches Ok(s) && s@ == x,
            Err(e) => r matches Err(e2) && e2 == e,
        },
{
    let (count, bytes) = read_table(view, b, 12)?;
    let mut out: Vec<StscEntry> = Vec::new();
    let blen = bytes.len();
    let mut i: u32 = 0;
    while i < count
        invariant
            i <= count,
            blen == bytes@.len(),
            bytes@.len() == count as int * 12,
            out@ =~= Seq::new(
                i as nat,
                |j: int| StscEntry {
                    first_chunk: spec_be_u32(bytes@, 12 * j) as u32,
                    samples_per_chunk: spec_be_u32(bytes@, 12 * j + 4) as u32,
                    sample_description_index: spec_be_u32(bytes@, 12 * j + 8) as u32,
                },
            ),
        decreases count - i,
    {
        let base = 12 * i as usize;
        out.push(StscEntry {
            first_chunk: be_u32_at(bytes.as_slice(), base),
            samples_per_chunk: be_u32_at(bytes.as_slice(), base + 4),
            sample_description_index: be_u32_at(bytes.as_slice(), base + 8),
        });
        i = i + 1;
    }
    Ok(out)
}

fn parse_stts(view: &FileView, b: &BoxHeader) -> (r: Result<Vec<SttsEntry>, Mp4Error>)
    ensures
        match spec_parse_stts(*view, b@) {
            Ok(x) => r matches Ok(s) && s@ == x,
            Err(e) => r matches Err(e2) && e2 == e,
        },
{
    let (count, bytes) = read_table(view, b, 8)?;
    let mut out: Vec<SttsEntry> = Vec::new();
    let blen = bytes.len();
    let mut i: u32 = 0;
    while i < count
        invariant
            i <= count,
            blen == bytes@.len(),
            bytes@.len() == count as int * 8,
            out@ =~= Seq::new(
                i as nat,
                |j: int| SttsEntry {
                    sample_count: spec_be_u32(bytes@, 8 * j) as u32,
                    sample_delta: spec_be_u32(bytes@, 8 * j + 4) as u32,
                },
            ),
        decreases count - i,
    {
        let base = 8 * i as usize;
        out.push(SttsEntry {
            sample_count: be_u32_at(bytes.as_slice(), base),
            sample_delta: be_u32_at(bytes.as_slice(), base + 4),
        });
        i = i + 1;
    }
    Ok(out)
}


/// A track before any box has been read: all numbers 0, all texts and
/// tables empty.
pub open spec fn empty_spec_track() -> SpecTrack {
    SpecTrack {
        id: 0,
        handler: Seq::empty(),
        name: Seq::empty(),
        sample_entry: Seq::empty(),
        timescale: 0,
        sample_count: 0,
        sizes: Seq::empty(),
        chunk_offsets: Seq::empty(),
        stsc: Seq::empty(),
        stts: Seq::empty(),
    }
}

fn empty_track() -> (r: Track)
    ensures
        r@ == empty_spec_track(),
{
    Track {
        id: 0,
        handler: String::new(),
        name: String::new(),
        sample_entry: String::new(),
        timescale: 0,
        sample_count: 0,
        sizes: Vec::new(),
        chunk_offsets: Vec::new(),
        stsc: Vec::new(),
        stts: Vec::new(),
    }
}

/// What one box of an `stbl` box sets in the track: the sample entry
/// (`stsd`), the sizes (`stsz`), the chunk offsets (`stco`, `co64`), the
/// sample-to-chunk table (`stsc`) or the time-to-sample table (`stts`).
pub open spec fn spec_stbl_step(v: FileView, b: SpecBox, t: SpecTrack) -> Result<SpecTrack, Mp4Error> {
    if b.typ == "stsd"@ {
        match spec_parse_stsd(v, b) {
            Ok(x) => Ok(SpecTrack { sample_entry: x, ..t }),
            Err(e) => Err(e),
        }
    } else if b.typ == "stsz"@ {
        match spec_parse_stsz(v, b) {
            Ok(x) => Ok(SpecTrack { sizes: x, ..t }),
            Err(e) => Err(e),
        }
    } else if b.typ == "stco"@ {
        match spec_parse_stco(v, b) {
            Ok(x) => Ok(SpecTrack { chunk_offsets: x, ..t }),
            Err(e) => Err(e),
        }
    } else if b.typ == "co64"@ {
        match spec_parse_co64(v, b) {
            Ok(x) => Ok(SpecTrack { chunk_offsets: x, ..t }),
            Err(e) => Err(e),
        }
    } else if b.typ == "stsc"@ {
        match spec_parse_stsc(v, b) {
            Ok(x) => Ok(SpecTrack { stsc: x, ..t }),
            Err(e) => Err(e),
        }
    } else if b.typ == "stts"@ {
        match spec_parse_stts(v, b) {
            Ok(x) => Ok(SpecTrack { stts: x, ..t }),
            Err(e) => Err(e),
        }
    } else {
        Ok(t)
    }
}

/// The boxes `bs[i..]` of an `stbl` box applied to `t` in order; the first
/// error ends the walk.
pub open spec fn spec_stbl_fold(v: FileView, bs: Seq<SpecBox>, i: nat, t: SpecTrack) -> Result<SpecTrack, Mp4Error>
    decreases bs.len() - i,
{
    if i >= bs.len() {
        Ok(t)
    } else {
        match spec_stbl_step(v, bs[i as int], t) {
            Ok(t2) => spec_stbl_fold(v, bs, i + 1, t2),
            Err(e) => Err(e),
        }
    }
}

/// What one box of a `minf` box sets in the track: an `stbl` box has its
/// boxes applied; other boxes change nothing.
pub open spec fn spec_minf_step(v: FileView, b: SpecBox, t: SpecTrack) -> Result<SpecTrack, Mp4Error> {
    if b.typ != "stbl"@ {
        Ok(t)
    } else {
        match spec_boxes_from(v, payload_start(b) as int, b.end as int) {
            Ok(cs) => spec_stbl_fold(v, cs, 0, t),
            Err(e) => Err(e),
        }
    }
}

pub open spec fn spec_minf_fold(v: FileView, bs: Seq<SpecBox>, i: nat, t: SpecTrack) -> Result<SpecTrack, Mp4Error>
    decreases bs.len() - i,
{
    if i >= bs.len() {
        Ok(t)
    } else {
        match spec_minf_step(v, bs[i as int], t) {
            Ok(t2) => spec_minf_fold(v, bs, i + 1, t2),
            Err(e) => Err(e),
        }
    }
}

/// What one box of an `mdia` box sets in the track: the timescale (`mdhd`),
/// the handler type and name (`hdlr`), or what the boxes of `minf` set.
pub open spec fn spec_mdia_step(v: FileView, b: SpecBox, t: SpecTrack) -> Result<SpecTrack, Mp4Error> {
    if b.typ == "mdhd"@ {
        match spec_parse_mdhd(v, b) {
            Ok(x) => Ok(SpecTrack { timescale: x, ..t }),
            Err(e) => Err(e),
        }
    } else if b.typ == "hdlr"@ {
        match spec_parse_hdlr(v, b) {
            Ok((h, n)) => Ok(SpecTrack { handler: h, name: n, ..t }),
            Err(e) => Err(e),
        }
    } else if b.typ == "minf"@ {
        match spec_boxes_from(v, payload_start(b) as int, b.end as int) {
            Ok(cs) => spec_minf_fold(v, cs, 0, t),
            Err(e) => Err(e),
        }
    } else {
        Ok(t)
    }
}

pub open spec fn spec_mdia_fold(v: FileView, bs: Seq<SpecBox>, i: nat, t: SpecTrack) -> Result<SpecTrack, Mp4Error>
    decreases bs.len() - i,
{
    if i >= bs.len() {
        Ok(t)
    } else {
        match spec_mdia_step(v, bs[i as int], t) {
            Ok(t2) => spec_mdia_fold(v, bs, i + 1, t2),
            Err(e) => Err(e),
        }
    }
}

/// What one box of a `trak` box sets in the track: the id (`tkhd`) or what
/// the boxes of `mdia` set.
pub open spec fn spec_trak_step(v: FileView, b: SpecBox, t: SpecTrack) -> Result<SpecTrack, Mp4Error> {
    if b.typ == "tkhd"@ {
        match spec_parse_tkhd(v, b) {
            Ok(x) => Ok(SpecTrack { id: x, ..t }),
            Err(e) => Err(e),
        }
    } else if b.typ == "mdia"@ {
        match spec_boxes_from(v, payload_start(b) as int, b.end as int) {
            Ok(cs) => spec_mdia_fold(v, cs, 0, t),
            Err(e) => Err(e),
        }
    } else {
        Ok(t)
    }
}

pub open spec fn spec_trak_fold(v: FileView, bs: Seq<SpecBox>, i: nat, t: SpecTrack) -> Result<SpecTrack, Mp4Error>
    decreases bs.len() - i,
{
    if i >= bs.len() {
        Ok(t)
    } else {
        match spec_trak_step(v, bs[i as int], t) {
            Ok(t2) => spec_trak_fold(v, bs, i + 1, t2),
            Err(e) => Err(e),
        }
    }
}

/// The track that a `trak` box describes: its boxes applied to the empty
/// track, and the sample count taken from the sizes table.
pub open spec fn spec_parse_track(v: FileView, trak: SpecBox) -> Result<SpecTrack, Mp4Error> {
    match spec_boxes_from(v, payload_start(trak) as int, trak.end as int) {
        Err(e) => Err(e),
        Ok(bs) => match spec_trak_fold(v, bs, 0, empty_spec_track()) {
            Ok(t) => Ok(SpecTrack { sample_count: t.sizes.len() as usize, ..t }),
            Err(e) => Err(e),
        },
    }
}

fn stbl_step(view: &FileView, b: &BoxHeader, track: &mut Track) -> (r: Result<(), Mp4Error>)
    ensures
        match spec_stbl_step(*view, b@, old(track)@) {
            Ok(t) => r is Ok && final(track)@ == t,
            Err(e) => r matches Err(e2) && e2 == e,
        },
{
    if box_is(b, "stsd") {
        track.sample_entry = parse_stsd(view, b)?;
    } else if box_is(b, "stsz") {
        track.sizes = parse_stsz(view, b)?;
    } else if box_is(b, "stco") {
        track.chunk_offsets = parse_stco(view, b)?;
    } else if box_is(b, "co64") {
        track.chunk_offsets = parse_co64(view, b)?;
    } else if box_is(b, "stsc") {
        track.stsc = parse_stsc(view, b)?;
    } else if box_is(b, "stts") {
        track.stts = parse_stts(view, b)?;
    }
    Ok(())
}

fn apply_stbl(view: &FileView, stbl: &BoxHeader, track: &mut Track) -> (r: Result<(), Mp4Error>)
    ensures
        match spec_boxes_from(*view, payload_start(stbl@) as int, stbl@.end as int) {
            Ok(cs) => match spec_stbl_fold(*view, cs, 0, old(track)@) {
                Ok(t) => r is Ok && final(track)@ == t,
                Err(e) => r matches Err(e2) && e2 == e,
            },
            Err(e) => r matches Err(e2) && e2 == e,
        },
{
    let boxes = read_boxes(view, payload_offset(stbl), stbl.end)?;
    let ghost bs = boxes_view(boxes@);
    let ghost t0 = track@;
    let mut i: usize = 0;
    while i < boxes.len()
        invariant
            bs == boxes_view(boxes@),
            spec_boxes_from(*view, payload_start(stbl@) as int, stbl@.end as int) == Ok::<Seq<SpecBox>, Mp4Error>(bs),
            t0 == old(track)@,
            i <= boxes@.len(),
            spec_stbl_fold(*view, bs, 0, t0) == spec_stbl_fold(*view, bs, i as nat, track@),
        decreases boxes@.len() - i,
    {
        assert(bs[i as int] == boxes@[i as int]@);
        stbl_step(view, &boxes[i], track)?;
        i = i + 1;
    }
    Ok(())
}

fn minf_step(view: &FileView, b: &BoxHeader, track: &mut Track) -> (r: Result<(), Mp4Error>)
    ensures
        match spec_minf_step(*view, b@, old(track)@) {
            Ok(t) => r is Ok && final(track)@ == t,
            Err(e) => r matches Err(e2) && e2 == e,
        },
{
    if !box_is(b, "stbl") {
        return Ok(());
    }
    apply_stbl(view, b, track)
}

fn apply_minf(view: &FileView, minf: &BoxHeader, track: &mut Track) -> (r: Result<(), Mp4Error>)
    ensures
        match spec_boxes_from(*view, payload_start(minf@) as int, minf@.end as int) {
            Ok(cs) => match spec_minf_fold(*view, cs, 0, old(track)@) {
                Ok(t) => r is Ok && final(track)@ == t,
                Err(e) => r matches Err(e2) && e2 == e,
            },
            Err(e) => r matches Err(e2) && e2 == e,
        },
{
    let boxes = read_boxes(view, payload_offset(minf), minf.end)?;
    let ghost bs = boxes_view(boxes@);
    let ghost t0 = track@;
    let mut i: usize = 0;
    while i < boxes.len()
        invariant
            bs == boxes_view(boxes@),
            spec_boxes_from(*view, payload_start(minf@) as int, minf@.end as int) == Ok::<Seq<SpecBox>, Mp4Error>(bs),
            t0 == old(track)@,
            i <= boxes@.len(),
            spec_minf_fold(*view, bs, 0, t0) == spec_minf_fold(*view, bs, i as nat, track@),
        decreases boxes@.len() - i,
    {
        assert(bs[i as int] == boxes@[i as int]@);
        minf_step(view, &boxes[i], track)?;
        i = i + 1;
    }
    Ok(())
}

fn mdia_step(view: &FileView, b: &BoxHeader, track: &mut Track) -> (r: Result<(), Mp4Error>)
    ensures
        match spec_mdia_step(*view, b@, old(track)@) {
            Ok(t) => r is Ok && final(track)@ == t,
            Err(e) => r matches Err(e2) && e2 == e,
        },
{
    if box_is(b, "mdhd") {
        track.timescale = parse_mdhd(view, b)?;
    } else if box_is(b, "hdlr") {
        let (handler, name) = parse_hdlr(view, b)?;
        track.handler = handler;
        track.name = name;
    } else if box_is(b, "minf") {
        apply_minf(view, b, track)?;
    }
    Ok(())
}

fn apply_mdia(view: &FileView, mdia: &BoxHeader, track: &mut Track) -> (r: Result<(), Mp4Error>)
    ensures
        match spec_boxes_from(*view, payload_start(mdia@) as int, mdia@.end as int) {
            Ok(cs) => match spec_mdia_fold(*view, cs, 0, old(track)@) {
                Ok(t) => r is Ok && final(track)@ == t,
                Err(e) => r matches Err(e2) && e2 == e,
            },
            Err(e) => r matches Err(e2) && e2 == e,
        },
{
    let boxes = read_boxes(view, payload_offset(mdia), mdia.end)?;
    let ghost bs = boxes_view(boxes@);
    let ghost t0 = track@;
    let mut i: usize = 0;
    while i < boxes.len()
        invariant
            bs == boxes_view(boxes@),
            spec_boxes_from(*view, payload_start(mdia@) as int, mdia@.end as int) == Ok::<Seq<SpecBox>, Mp4Error>(bs),
            t0 == old(track)@,
            i <= boxes@.len(),
            spec_mdia_fold(*view, bs, 0, t0) == spec_mdia_fold(*view, bs, i as nat, track@),
        decreases boxes@.len() - i,
    {
        assert(bs[i as int] == boxes@[i as int]@);
        mdia_step(view, &boxes[i], track)?;
        i = i + 1;
    }
    Ok(())
}

fn trak_step(view: &FileView, b: &BoxHeader, track: &mut Track) -> (r: Result<(), Mp4Error>)
    ensures
        match spec_trak_step(*view, b@, old(track)@) {
            Ok(t) => r is Ok && final(track)@ == t,
            Err(e) => r matches Err(e2) && e2 == e,
        },
{
    if box_is(b, "tkhd") {
        track.id = parse_tkhd(view, b)?;
    } else if box_is(b, "mdia") {
        apply_mdia(view, b, track)?;
    }
    Ok(())
}

/// Reads the track that a `trak` box describes (see [`spec_parse_track`]).
pub fn parse_track(view: &FileView, trak: &BoxHeader) -> (r: Result<Track, Mp4Error>)
    ensures
        match spec_parse_track(*view, trak@) {
            Ok(t) => r matches Ok(t2) && t2@ == t,
            Err(e) => r matches Err(e2) && e2 == e,
        },
{
    let boxes = read_boxes(view, payload_offset(trak), trak.end)?;
    let ghost bs = boxes_view(boxes@);
    let mut track = empty_track();
    let mut i: usize = 0;
    while i < boxes.len()
        invariant
            bs == boxes_view(boxes@),
            spec_boxes_from(*view, payload_start(trak@) as int, trak@.end as int) == Ok::<Seq<SpecBox>, Mp4Error>(bs),
            i <= boxes@.len(),
            spec_trak_fold(*view, bs, 0, empty_spec_track()) == spec_trak_fold(*view, bs, i as nat, track@),
        decreases boxes@.len() - i,
    {
        assert(bs[i as int] == boxes@[i as int]@);
        trak_step(view, &boxes[i], &mut track)?;
        i = i + 1;
    }
    track.sample_count = track.sizes.len();
    Ok(track)
}


pub open spec fn tracks_view(v: Seq<Track>) -> Seq<SpecTrack> {
    v.map_values(|t: Track| t@)
}

/// The tracks of the `trak` boxes of `cs[j..]`, appended to `acc`.
pub open spec fn spec_moov_fold(v: FileView, cs: Seq<SpecBox>, j: nat, acc: Seq<SpecTrack>) -> Result<Seq<SpecTrack>, Mp4Error>
    decreases cs.len() - j,
{
    if j >= cs.len() {
        Ok(acc)
    } else if cs[j as int].typ != "trak"@ {
        spec_moov_fold(v, cs, j + 1, acc)
    } else {
        match spec_parse_track(v, cs[j as int]) {
            Ok(t) => spec_moov_fold(v, cs, j + 1, acc.push(t)),
            Err(e) => Err(e),
        }
    }
}

/// The tracks of the `moov` boxes among `tops[i..]`, appended to `acc`.
pub open spec fn spec_top_fold(v: FileView, tops: Seq<SpecBox>, i: nat, acc: Seq<SpecTrack>) -> Result<Seq<SpecTrack>, Mp4Error>
    decreases tops.len() - i,
{
    if i >= tops.len() {
        Ok(acc)
    } else if tops[i as int].typ != "moov"@ {
        spec_top_fold(v, tops, i + 1, acc)
    } else {
        match spec_boxes_from(v, payload_start(tops[i as int]) as int, tops[i as int].end as int) {
            Ok(cs) => match spec_moov_fold(v, cs, 0, acc) {
                Ok(acc2) => spec_top_fold(v, tops, i + 1, acc2),
                Err(e) => Err(e),
            },
            Err(e) => Err(e),
        }
    }
}

/// All tracks of the file, in file order: those of every `trak` box of
/// every top-level `moov` box.
pub open spec fn spec_parse_tracks(v: FileView) -> Result<Seq<SpecTrack>, Mp4Error> {
    match spec_boxes_from(v, 0, v.len as int) {
        Ok(tops) => spec_top_fold(v, tops, 0, Seq::empty()),
        Err(e) => Err(e),
    }
}

fn collect_moov_tracks(view: &FileView, moov: &BoxHeader, tracks: &mut Vec<Track>) -> (r: Result<(), Mp4Error>)
    ensures
        match spec_boxes_from(*view, payload_start(moov@) as int, moov@.end as int) {
            Ok(cs) => match spec_moov_fold(*view, cs, 0, tracks_view(old(tracks)@)) {
                Ok(ts) => r is Ok && tracks_view(final(tracks)@) == ts,
                Err(e) => r matches Err(e2) && e2 == e,
            },
            Err(e) => r matches Err(e2) && e2 == e,
        },
{
    let children = read_boxes(view, payload_offset(moov), moov.end)?;
    let ghost cs = boxes_view(children@);
    let ghost acc0 = tracks_view(tracks@);
    let mut j: usize = 0;
    while j < children.len()
        invariant
            cs == boxes_view(children@),
            spec_boxes_from(*view, payload_start(moov@) as int, moov@.end as int) == Ok::<Seq<SpecBox>, Mp4Error>(cs),
            acc0 == tracks_view(old(tracks)@),
            j <= children@.len(),
            spec_moov_fold(*view, cs, 0, acc0) == spec_moov_fold(*view, cs, j as nat, tracks_view(tracks@)),
        decreases children@.len() - j,
    {
        let child = &children[j];
        assert(cs[j as int] == child@);
        if box_is(child, "trak") {
            let t = parse_track(view, child)?;
            let ghost before = tracks_view(tracks@);
            tracks.push(t);
            assert(tracks_view(tracks@) =~= before.push(t@));
        }
        j = j + 1;
    }
    Ok(())
}

/// Reads all tracks of the file (see [`spec_parse_tracks`]).
pub fn parse_tracks(view: &FileView) -> (r: Result<Vec<Track>, Mp4Error>)
    ensures
        match spec_parse_tracks(*view) {
            Ok(ts) => r matches Ok(v) && tracks_view(v@) == ts,
            Err(e) => r matches Err(e2) && e2 == e,
        },
{
    let tops = read_boxes(view, 0, view.len)?;
    let ghost ts = boxes_view(tops@);
    let mut tracks: Vec<Track> = Vec::new();
    assert(tracks_view(tracks@) =~= Seq::<SpecTrack>::empty());
    let mut i: usize = 0;
    while i < tops.len()
        invariant
            ts == boxes_view(tops@),
            spec_boxes_from(*view, 0, view.len as int) == Ok::<Seq<SpecBox>, Mp4Error>(ts),
            i <= tops@.len(),
            spec_top_fold(*view, ts, 0, Seq::empty()) == spec_top_fold(*view, ts, i as nat, tracks_view(tracks@)),
        decreases tops@.len() - i,
    {
        let top = &tops[i];
        assert(ts[i as int] == top@);
        if box_is(top, "moov") {
            collect_moov_tracks(view, top, &mut tracks)?;
        }
        i = i + 1;
    }
    Ok(tracks)
}

/// Creation time field of an `mvhd` box, in seconds since the QuickTime
/// epoch: payload bytes 4..8, or 4..12 in a version-1 box.
pub open spec fn spec_mvhd_seconds(v: FileView, b: SpecBox) -> Result<u64, Mp4Error> {
    let base = payload_start(b) as int;
    match spec_read(v, base, 20) {
        Err(e) => Err(e),
        Ok(bytes) => if bytes[0] == 1 {
            match spec_read(v, base, 28) {
                Err(e) => Err(e),
                Ok(b2) => Ok(spec_be_u64(b2, 4) as u64),
            }
        } else {
            Ok(spec_be_u32(bytes, 4) as u64)
        },
    }
}

/// The creation time of the first `mvhd` box among `cs[j..]`, if there is one.
pub open spec fn spec_find_mvhd(v: FileView, cs: Seq<SpecBox>, j: nat) -> Option<Result<u64, Mp4Error>>
    decreases cs.len() - j,
{
    if j >= cs.len() {
        None
    } else if cs[j as int].typ != "mvhd"@ {
        spec_find_mvhd(v, cs, j + 1)
    } else {
        Some(spec_mvhd_seconds(v, cs[j as int]))
    }
}

/// The creation time of the first `mvhd` box of the first top-level `moov`
/// box (among `tops[i..]`) that holds one.
pub open spec fn spec_creation_in_tops(v: FileView, tops: Seq<SpecBox>, i: nat) -> Result<u64, Mp4Error>
    decreases tops.len() - i,
{
    if i >= tops.len() {
        Err(Mp4Error::MvhdNotFound)
    } else if tops[i as int].typ != "moov"@ {
        spec_creation_in_tops(v, tops, i + 1)
    } else {
        match spec_boxes_from(v, payload_start(tops[i as int]) as int, tops[i as int].end as int) {
            Err(e) => Err(e),
            Ok(cs) => match spec_find_mvhd(v, cs, 0) {
                Some(r) => r,
                None => spec_creation_in_tops(v, tops, i + 1),
            },
        }
    }
}

/// The movie creation time of the file, in seconds since the QuickTime
/// epoch (see [`spec_creation_in_tops`]).
pub open spec fn spec_movie_creation_seconds(v: FileView) -> Result<u64, Mp4Error> {
    match spec_boxes_from(v, 0, v.len as int) {
        Ok(tops) => spec_creation_in_tops(v, tops, 0),
        Err(e) => Err(e),
    }
}

fn mvhd_seconds(view: &FileView, b: &BoxHeader) -> (r: Result<u64, Mp4Error>)
    ensures
        match spec_mvhd_seconds(*view, b@) {
            Ok(x) => r == Ok::<u64, Mp4Error>(x),
            Err(e) => r matches Err(e2) && e2 == e,
        },
{
    let base = payload_offset(b);
    proof {
        lemma_read_len(*view, base as int, 20);
        lemma_read_len(*view, base as int, 28);
    }
    let bytes = view.read(base, 20)?;
    if bytes[0] == 1 {
        let b2 = view.read(base, 28)?;
        return Ok(be_u64_at(b2.as_slice(), 4));
    }
    Ok(be_u32_at(bytes.as_slice(), 4) as u64)
}

/// Reads the movie creation time of the file, in seconds since the
/// QuickTime epoch (see [`spec_movie_creation_seconds`]).
pub fn parse_movie_creation_seconds(view: &FileView) -> (r: Result<u64, Mp4Error>)
    ensures
        match spec_movie_creation_seconds(*view) {
            Ok(x) => r == Ok::<u64, Mp4Error>(x),
            Err(e) => r matches Err(e2) && e2 == e,
        },
{
    let tops = read_boxes(view, 0, view.len)?;
    let ghost ts = boxes_view(tops@);
    let mut i: usize = 0;
    while i < tops.len()
        invariant
            ts == boxes_view(tops@),
            spec_boxes_from(*view, 0, view.len as int) == Ok::<Seq<SpecBox>, Mp4Error>(ts),
            i <= tops@.len(),
            spec_creation_in_tops(*view, ts, 0) == spec_creation_in_tops(*view, ts, i as nat),
        decreases tops@.len() - i,
    {
        let top = &tops[i];
        assert(ts[i as int] == top@);
        if box_is(top, "moov") {
            let children = read_boxes(view, payload_offset(top), top.end)?;
            let ghost cs = boxes_view(children@);
            let mut j: usize = 0;
            while j < children.len()
                invariant
                    cs == boxes_view(children@),
                    ts == boxes_view(tops@),
                    spec_boxes_from(*view, 0, view.len as int) == Ok::<Seq<SpecBox>, Mp4Error>(ts),
                    i < tops@.len(),
                    ts[i as int].typ == "moov"@,
                    spec_boxes_from(*view, payload_start(ts[i as int]) as int, ts[i as int].end as int) == Ok::<Seq<SpecBox>, Mp4Error>(cs),
                    spec_creation_in_tops(*view, ts, 0) == spec_creation_in_tops(*view, ts, i as nat),
                    j <= children@.len(),
                    spec_find_mvhd(*view, cs, 0) == spec_find_mvhd(*view, cs, j as nat),
                decreases children@.len() - j,
            {
                let child = &children[j];
                assert(cs[j as int] == child@);
                if box_is(child, "mvhd") {
                    return mvhd_seconds(view, child);
                }
                j = j + 1;
            }
        }
        i = i + 1;
    }
    Err(Mp4Error::MvhdNotFound)
}

/// The instant `seconds` after the QuickTime epoch (the seconds read as a
/// signed 64-bit count, as the file format's unsigned field wraps into one);
/// none where chrono cannot add them: where the count is more than
/// `i64::MAX / 1000` either way, or the instant lies outside chrono's range.
pub open spec fn spec_quicktime_instant(seconds: u64) -> Option<Timestamp> {
    let d = seconds as i64;
    if -(i64::MAX / 1000) <= d <= i64::MAX / 1000 && chrono_utc_valid((QUICKTIME_EPOCH_SECS + d) as i64, 0) {
        Some(Timestamp { secs: (QUICKTIME_EPOCH_SECS + d) as i64, nanos: 0 })
    } else {
        None
    }
}

/// The movie creation time of the file as an instant (see
/// [`spec_movie_creation_seconds`] and [`spec_quicktime_instant`]).
pub open spec fn spec_movie_creation_instant(v: FileView) -> Result<Timestamp, Mp4Error> {
    match spec_movie_creation_seconds(v) {
        Ok(x) => match spec_quicktime_instant(x) {
            Some(t) => Ok(t),
            None => Err(Mp4Error::CreationTimeOutOfRange),
        },
        Err(e) => Err(e),
    }
}

/// The instant `seconds` after the QuickTime epoch (see
/// [`spec_quicktime_instant`]).
pub fn quicktime_instant(seconds: u64) -> (r: Option<Timestamp>)
    ensures
        r == spec_quicktime_instant(seconds),
{
    let epoch = quicktime_epoch();
    add_seconds(epoch, seconds as i64)
}

/// Reads the movie creation time of the file as an instant.
pub fn parse_movie_creation_time(view: &FileView) -> (r: Result<Timestamp, Mp4Error>)
    ensures
        r == spec_movie_creation_instant(*view),
{
    let seconds = parse_movie_creation_seconds(view)?;
    match quicktime_instant(seconds) {
        Some(t) => Ok(t),
        None => Err(Mp4Error::CreationTimeOutOfRange),
    }
}

/// Whole seconds from the QuickTime epoch to `t` (its fraction of a second
/// dropped); none before the epoch.
pub open spec fn spec_quicktime_seconds(t: Timestamp) -> Result<u64, Mp4Error> {
    if t.secs < QUICKTIME_EPOCH_SECS {
        Err(Mp4Error::BeforeQuickTimeEpoch)
    } else {
        Ok((t.secs - QUICKTIME_EPOCH_SECS) as u64)
    }
}

/// Whole seconds from the QuickTime epoch to `time` (see
/// [`spec_quicktime_seconds`]).
pub fn quicktime_seconds(time: Timestamp) -> (r: Result<u64, Mp4Error>)
    ensures
        match spec_quicktime_seconds(time) {
            Ok(x) => r == Ok::<u64, Mp4Error>(x),
            Err(e) => r matches Err(e2) && e2 == e,
        },
{
    let epoch = quicktime_epoch();
    if time.secs < epoch.secs {
        return Err(Mp4Error::BeforeQuickTimeEpoch);
    }
    Ok((time.secs as i128 - epoch.secs as i128) as u64)
}

/// Seconds since the QuickTime epoch lose only the fraction of a second:
/// the instant read back from the seconds of `t` is `t` without its
/// nanoseconds, wherever chrono can represent that instant.
pub proof fn law_quicktime_seconds_round_trip(t: Timestamp)
    requires
        QUICKTIME_EPOCH_SECS <= t.secs,
        t.secs - QUICKTIME_EPOCH_SECS <= i64::MAX / 1000,
        chrono_utc_valid(t.secs, 0),
    ensures
        spec_quicktime_seconds(t) matches Ok(s) && spec_quicktime_instant(s) == Some(
            Timestamp { secs: t.secs, nanos: 0 },
        ),
{
}

/// A write that patching asks for: `bytes` at `offset` of the file.
pub struct TimeWrite {
    pub offset: u64,
    pub bytes: Vec<u8>,
}

impl View for TimeWrite {
    type V = (u64, Seq<u8>);

    open spec fn view(&self) -> (u64, Seq<u8>) {
        (self.offset, self.bytes@)
    }
}

pub open spec fn writes_view(v: Seq<TimeWrite>) -> Seq<(u64, Seq<u8>)> {
    v.map_values(|w: TimeWrite| w@)
}

/// Which time box a type names, if any.
pub open spec fn time_box_kind(typ: Seq<char>) -> Option<TimeBox> {
    if typ == "mvhd"@ {
        Some(TimeBox::Mvhd)
    } else if typ == "tkhd"@ {
        Some(TimeBox::Tkhd)
    } else if typ == "mdhd"@ {
        Some(TimeBox::Mdhd)
    } else {
        None
    }
}

/// The type names a box that holds other boxes whose times are patched.
pub open spec fn is_time_container(typ: Seq<char>) -> bool {
    typ == "moov"@ || typ == "trak"@ || typ == "mdia"@
}

/// The writes that set both time fields of a time box (creation and
/// modification, right after version and flags) to `seconds`: 64-bit fields
/// at payload offsets 4 and 12 in a version-1 box, 32-bit fields at 4 and 8
/// otherwise, where `seconds` must fit 32 bits.
pub open spec fn spec_patch_full_box(v: FileView, b: SpecBox, kind: TimeBox, seconds: u64) -> (Seq<(u64, Seq<u8>)>, Option<Mp4Error>) {
    let base = payload_start(b);
    match spec_read(v, base as int, 1) {
        Err(e) => (Seq::empty(), Some(e)),
        Ok(bytes) => if bytes[0] == 1 {
            (seq![(wrapping_add(base, 4), be64_seq(seconds as int)), (wrapping_add(base, 12), be64_seq(seconds as int))], None)
        } else if seconds > u32::MAX {
            (Seq::empty(), Some(Mp4Error::TimeFieldTooLarge { kind, seconds }))
        } else {
            (seq![(wrapping_add(base, 4), be32_seq(seconds as int)), (wrapping_add(base, 8), be32_seq(seconds as int))], None)
        },
    }
}

/// The box lies within `start..end` and is at least as large as its header
/// of at least 8 bytes (every box of [`spec_boxes_from`] does).
pub open spec fn box_within(b: SpecBox, start: int, end: int) -> bool {
    &&& start <= b.start
    &&& b.end <= end
    &&& b.end == b.start + b.size
    &&& 8 <= b.header_size <= b.size
}

/// The writes that patch the time boxes in `start..end`, in file order, and
/// the error that ended the walk, if one did: time boxes are patched, the
/// boxes of `moov`, `trak` and `mdia` boxes are walked in turn.
pub open spec fn spec_patch_range(v: FileView, start: int, end: int, seconds: u64) -> (Seq<(u64, Seq<u8>)>, Option<Mp4Error>)
    decreases end - start, 1int, 0int,
{
    match spec_boxes_from(v, start, end) {
        Err(e) => (Seq::empty(), Some(e)),
        Ok(bs) => spec_patch_fold(v, bs, 0, seconds, start, end),
    }
}

/// The walk of [`spec_patch_range`] through `bs[i..]`.
pub open spec fn spec_patch_fold(v: FileView, bs: Seq<SpecBox>, i: nat, seconds: u64, start: int, end: int) -> (Seq<(u64, Seq<u8>)>, Option<Mp4Error>)
    decreases end - start, 0int, bs.len() - i,
{
    if i >= bs.len() {
        (Seq::empty(), None)
    } else {
        let b = bs[i as int];
        if !box_within(b, start, end) {
            spec_patch_fold(v, bs, i + 1, seconds, start, end)
        } else {
            let (w1, e1) = match time_box_kind(b.typ) {
                Some(kind) => spec_patch_full_box(v, b, kind, seconds),
                None => if is_time_container(b.typ) {
                    spec_patch_range(v, payload_start(b) as int, b.end as int, seconds)
                } else {
                    (Seq::empty(), None)
                },
            };
            match e1 {
                Some(e) => (w1, Some(e)),
                None => {
                    let (w2, e2) = spec_patch_fold(v, bs, i + 1, seconds, start, end);
                    (w1 + w2, e2)
                },
            }
        }
    }
}

fn time_box_kind_of(b: &BoxHeader) -> (r: Option<TimeBox>)
    ensures
        r == time_box_kind(b.typ@),
{
    if box_is(b, "mvhd") {
        Some(TimeBox::Mvhd)
    } else if box_is(b, "tkhd") {
        Some(TimeBox::Tkhd)
    } else if box_is(b, "mdhd") {
        Some(TimeBox::Mdhd)
    } else {
        None
    }
}

fn patch_full_box_times(view: &FileView, b: &BoxHeader, kind: TimeBox, seconds: u64, writes: &mut Vec<TimeWrite>) -> (r: Result<(), Mp4Error>)
    ensures
        ({
            let (w, e) = spec_patch_full_box(*view, b@, kind, seconds);
            &&& writes_view(final(writes)@) == writes_view(old(writes)@) + w
            &&& match e {
                Some(e) => r matches Err(e2) && e2 == e,
                None => r is Ok,
            }
        }),
{
    let base = payload_offset(b);
    proof {
        lemma_read_len(*view, base as int, 1);
    }
    let bytes = match view.read(base, 1) {
        Ok(bytes) => bytes,
        Err(e) => {
            assert(writes_view(writes@) =~= writes_view(writes@) + Seq::<(u64, Seq<u8>)>::empty());
            return Err(e);
        },
    };
    let ghost before = writes_view(writes@);
    if bytes[0] == 1 {
        let mut a: Vec<u8> = Vec::new();
        push_u64(&mut a, seconds);
        let mut c: Vec<u8> = Vec::new();
        push_u64(&mut c, seconds);
        writes.push(TimeWrite { offset: base.wrapping_add(4), bytes: a });
        writes.push(TimeWrite { offset: base.wrapping_add(12), bytes: c });
        assert(writes_view(writes@) =~= before + spec_patch_full_box(*view, b@, kind, seconds).0);
        return Ok(());
    }
    if seconds > 0xffff_ffff {
        assert(writes_view(writes@) =~= before + Seq::<(u64, Seq<u8>)>::empty());
        return Err(Mp4Error::TimeFieldTooLarge { kind, seconds });
    }
    let mut a: Vec<u8> = Vec::new();
    push_u32(&mut a, seconds as u32);
    let mut c: Vec<u8> = Vec::new();
    push_u32(&mut c, seconds as u32);
    writes.push(TimeWrite { offset: base.wrapping_add(4), bytes: a });
    writes.push(TimeWrite { offset: base.wrapping_add(8), bytes: c });
    assert(writes_view(writes@) =~= before + spec_patch_full_box(*view, b@, kind, seconds).0);
    Ok(())
}

/// Appends the writes that patch the time boxes in `start..end` (see
/// [`spec_patch_range`]).
pub fn patch_mp4_time_boxes(view: &FileView, start: u64, end: u64, seconds: u64, writes: &mut Vec<TimeWrite>) -> (r: Result<(), Mp4Error>)
    ensures
        ({
            let (w, e) = spec_patch_range(*view, start as int, end as int, seconds);
            &&& writes_view(final(writes)@) == writes_view(old(writes)@) + w
            &&& match e {
                Some(e) => r matches Err(e2) && e2 == e,
                None => r is Ok,
            }
        }),
    decreases end - start,
{
    let boxes = match read_boxes(view, start, end) {
        Ok(boxes) => boxes,
        Err(e) => {
            assert(writes_view(writes@) =~= writes_view(writes@) + Seq::<(u64, Seq<u8>)>::empty());
            return Err(e);
        },
    };
    let ghost bs = boxes_view(boxes@);
    let ghost w0 = writes_view(writes@);
    let mut i: usize = 0;
    while i < boxes.len()
        invariant
            bs == boxes_view(boxes@),
            spec_boxes_from(*view, start as int, end as int) == Ok::<Seq<SpecBox>, Mp4Error>(bs),
            boxes_within(bs, start as int, end as int),
            w0 == writes_view(old(writes)@),
            i <= boxes@.len(),
            ({
                let (wa, ea) = spec_patch_fold(*view, bs, 0, seconds, start as int, end as int);
                let (wi, ei) = spec_patch_fold(*view, bs, i as nat, seconds, start as int, end as int);
                wa == writes_view(writes@).subrange(w0.len() as int, writes@.len() as int) + wi && ea == ei
            }),
            w0.len() <= writes@.len(),
            writes_view(writes@).subrange(0, w0.len() as int) == w0,
        decreases boxes@.len() - i,
    {
        let b = &boxes[i];
        assert(bs[i as int] == b@);
        assert(box_within(b@, start as int, end as int));
        let ghost before = writes_view(writes@);
        let ghost (wi, ei) = spec_patch_fold(*view, bs, i as nat, seconds, start as int, end as int);
        let ghost (wn, en) = spec_patch_fold(*view, bs, (i + 1) as nat, seconds, start as int, end as int);
        let step = match time_box_kind_of(b) {
            Some(kind) => patch_full_box_times(view, b, kind, seconds, writes),
            None => if box_is(b, "moov") || box_is(b, "trak") || box_is(b, "mdia") {
                patch_mp4_time_boxes(view, payload_offset(b), b.end, seconds, writes)
            } else {
                Ok(())
            },
        };
        let ghost w1 = writes_view(writes@).subrange(before.len() as int, writes@.len() as int);
        assert(writes_view(writes@) =~= before + w1);
        match step {
            Err(e) => {
                assert(writes_view(writes@).subrange(w0.len() as int, writes@.len() as int) =~= before.subrange(w0.len() as int, before.len() as int) + w1);
                assert(writes_view(writes@) =~= w0 + writes_view(writes@).subrange(w0.len() as int, writes@.len() as int));
                return Err(e);
            },
            Ok(()) => {
                assert(wi == w1 + wn && ei == en);
                assert(writes_view(writes@).subrange(w0.len() as int, writes@.len() as int) =~= before.subrange(w0.len() as int, before.len() as int) + w1);
                assert(writes_view(writes@).subrange(0, w0.len() as int) =~= before.subrange(0, w0.len() as int));
            },
        }
        i = i + 1;
    }
    assert(writes_view(writes@) =~= w0 + writes_view(writes@).subrange(w0.len() as int, writes@.len() as int));
    assert(writes_view(writes@).subrange(w0.len() as int, writes@.len() as int) + Seq::<(u64, Seq<u8>)>::empty() =~= writes_view(writes@).subrange(w0.len() as int, writes@.len() as int));
    Ok(())
}

/// The writes that set the creation and modification times of every time
/// box to `time` (whole seconds since the QuickTime epoch), and the outcome:
/// the number of fields written, or why patching failed (the writes made
/// before the failure still stand).
pub open spec fn spec_write_mp4_creation_time(v: FileView, time: Timestamp) -> (Seq<(u64, Seq<u8>)>, Result<usize, Mp4Error>) {
    match spec_quicktime_seconds(time) {
        Err(e) => (Seq::empty(), Err(e)),
        Ok(seconds) => {
            let (w, e) = spec_patch_range(v, 0, v.len as int, seconds);
            match e {
                Some(e) => (w, Err(e)),
                None => if w.len() == 0 {
                    (w, Err(Mp4Error::NoTimeFields))
                } else {
                    (w, Ok(w.len() as usize))
                },
            }
        },
    }
}

/// What patching the creation time asks for: the writes, in order, and the
/// outcome.
pub struct TimePatch {
    pub writes: Vec<TimeWrite>,
    pub result: Result<usize, Mp4Error>,
}

/// Plans the patch of the creation time of an MP4 (see
/// [`spec_write_mp4_creation_time`]).
pub fn write_mp4_creation_time(view: &FileView, time: Timestamp) -> (r: TimePatch)
    ensures
        ({
            let (w, res) = spec_write_mp4_creation_time(*view, time);
            &&& writes_view(r.writes@) == w
            &&& match res {
                Ok(n) => r.result == Ok::<usize, Mp4Error>(n),
                Err(e) => r.result matches Err(e2) && e2 == e,
            }
        }),
{
    let mut writes: Vec<TimeWrite> = Vec::new();
    assert(writes_view(writes@) =~= Seq::<(u64, Seq<u8>)>::empty());
    let seconds = match quicktime_seconds(time) {
        Ok(s) => s,
        Err(e) => return TimePatch { writes, result: Err(e) },
    };
    let result = patch_mp4_time_boxes(view, 0, view.len, seconds, &mut writes);
    assert(writes_view(writes@) =~= Seq::<(u64, Seq<u8>)>::empty() + spec_patch_range(*view, 0, view.len as int, seconds).0);
    match result {
        Err(e) => TimePatch { writes, result: Err(e) },
        Ok(()) => {
            if writes.len() == 0 {
                TimePatch { writes, result: Err(Mp4Error::NoTimeFields) }
            } else {
                let n = writes.len();
                TimePatch { writes, result: Ok(n) }
            }
        },
    }
}

} // verus!
