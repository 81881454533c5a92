//! Tempo maps of Standard MIDI Files.
//!
//! A file is read by `midly`; what the tempo map needs of it (the header's
//! timing and, per track, each event's delta time and whether it is a tempo
//! or a time-signature meta event) is handed over as plain values.  From
//! those the tempo map is computed exactly, in integers: a tempo is kept as
//! microseconds per quarter note (so 120 BPM is 500000), and a moment in time
//! as a count of tick-microseconds, which is seconds times
//! `ticks_per_quarter * 1_000_000`.
use vstd::prelude::*;

use midly::{MetaMessage as Meta, TrackEventKind as Kind};

verus! {

// ---------------------------------------------------------------------------
// What a file holds, as far as the tempo map is concerned
// ---------------------------------------------------------------------------
/// How a file divides time, as its header states it.
#[derive(Clone, Copy, Debug, PartialEq, Eq, Structural)]
pub enum SmfTiming {
    /// A number of ticks per quarter note.
    Metrical(u16),
    /// SMPTE frames and subframes per second.
    Timecode,
}

/// The kind of a track event.
#[derive(Clone, Copy, Debug, PartialEq, Eq, Structural)]
pub enum SmfEventKind {
    /// A tempo meta event, in microseconds per quarter note.
    Tempo(u32),
    /// A time-signature meta event, with its numerator.
    TimeSignature(u8),
    /// Any other event.
    Other,
}

/// One event of a track: its delta time in ticks and its kind.
#[derive(Clone, Copy, Debug, PartialEq, Eq, Structural)]
pub struct SmfEvent {
    pub delta: u32,
    pub kind: SmfEventKind,
}

/// The header timing and the tracks of a file.
#[derive(Debug)]
pub struct SmfContents {
    pub timing: SmfTiming,
    pub tracks: Vec<Vec<SmfEvent>>,
}

/// The mathematical content of `SmfContents`.
pub struct SmfContentsView {
    pub timing: SmfTiming,
    pub tracks: Seq<Seq<SmfEvent>>,
}

impl View for SmfContents {
    type V = SmfContentsView;

    open spec fn view(&self) -> SmfContentsView {
        SmfContentsView { timing: self.timing, tracks: self.tracks@.map_values(|t: Vec<SmfEvent>| t@) }
    }
}

/// What `midly` reads from the bytes of a file: `None` where it refuses them.
pub uninterp spec fn smf_read(bytes: Seq<u8>) -> Option<SmfContentsView>;

#[verifier::external_type_specification]
#[verifier::external_body]
pub struct ExMidlyError(midly::Error);

/// Reads a Standard MIDI File with `midly::Smf::parse`.
///
/// Trusted: the call either fails, and then `smf_read` is `None` for these
/// bytes, or yields the header timing and every event of every track, in
/// order, with its delta time and (for tempo and time-signature meta events)
/// the tempo and the numerator; `smf_read` names that result.
#[verifier::external_body]
fn read_smf(bytes: &[u8]) -> (res: Result<SmfContents, midly::Error>)
    ensures
        res is Ok <==> smf_read(bytes@) is Some,
        res matches Ok(c) ==> smf_read(bytes@) == Some(c@),
{
    let smf = midly::Smf::parse(bytes)?;
    let timing = match smf.header.timing {
        midly::Timing::Metrical(t) => SmfTiming::Metrical(t.as_int()),
        midly::Timing::Timecode(..) => SmfTiming::Timecode,
    };
    let event = |e: &midly::TrackEvent| SmfEvent { delta: e.delta.as_int(), kind: match e.kind {
        Kind::Meta(Meta::Tempo(t)) => SmfEventKind::Tempo(t.as_int()),
        Kind::Meta(Meta::TimeSignature(n, ..)) => SmfEventKind::TimeSignature(n),
        _ => SmfEventKind::Other,
    } };
    let tracks = smf.tracks.iter().map(|t| t.iter().map(event).collect()).collect();
    Ok(SmfContents { timing, tracks })
}

// ---------------------------------------------------------------------------
// Tempo and time-signature events, placed on the timeline
// ---------------------------------------------------------------------------
/// A tempo or time-signature change at an absolute tick.
#[derive(Clone, Copy, Debug, PartialEq, Eq, Structural)]
pub struct MidiMeta {
    pub tick: u64,
    pub tempo: Option<u32>,
    pub beat: Option<u32>,
}

/// `tick + delta`, held at `u64::MAX`.
pub open spec fn saturating_tick(tick: u64, delta: u32) -> u64 {
    if tick + delta > u64::MAX {
        u64::MAX
    } else {
        (tick + delta) as u64
    }
}

/// The absolute tick of the `n`-th event of a track (counting from 1), or 0
/// for `n == 0`: the sum of the first `n` delta times, held at `u64::MAX`.
pub open spec fn tick_after(track: Seq<SmfEvent>, n: int) -> u64
    decreases n,
{
    if n <= 0 {
        0
    } else {
        saturating_tick(tick_after(track, n - 1), track[n - 1].delta)
    }
}

/// The change that an event makes, if it is a tempo or time-signature event.
pub open spec fn meta_at(event: SmfEvent, tick: u64) -> Option<MidiMeta> {
    match event.kind {
        SmfEventKind::Tempo(us) => Some(MidiMeta { tick, tempo: Some(us), beat: None }),
        SmfEventKind::TimeSignature(n) => Some(MidiMeta { tick, tempo: None, beat: Some(n as u32) }),
        SmfEventKind::Other => None,
    }
}

/// The changes among the first `n` events of a track, in order.
pub open spec fn track_metas(track: Seq<SmfEvent>, n: int) -> Seq<MidiMeta>
    decreases n,
{
    if n <= 0 {
        seq![]
    } else {
        let before = track_metas(track, n - 1);
        match meta_at(track[n - 1], tick_after(track, n)) {
            Some(m) => before.push(m),
            None => before,
        }
    }
}

/// The changes of the first `n` tracks: track by track, each in order.
pub open spec fn file_metas(tracks: Seq<Seq<SmfEvent>>, n: int) -> Seq<MidiMeta>
    decreases n,
{
    if n <= 0 {
        seq![]
    } else {
        file_metas(tracks, n - 1) + track_metas(tracks[n - 1], tracks[n - 1].len() as int)
    }
}

/// The latest tick of any event of the first `n` tracks (0 without events).
/// Ticks only grow along a track, so a track's latest tick is that of its
/// last event.
pub open spec fn file_last_tick(tracks: Seq<Seq<SmfEvent>>, n: int) -> u64
    decreases n,
{
    if n <= 0 {
        0
    } else {
        let here = tick_after(tracks[n - 1], tracks[n - 1].len() as int);
        let before = file_last_tick(tracks, n - 1);
        if before < here {
            here
        } else {
            before
        }
    }
}

// ---------------------------------------------------------------------------
// Stable order by tick
// ---------------------------------------------------------------------------
/// `sorted` with `m` placed after every element whose tick is at most its own.
pub open spec fn insert_by_tick(sorted: Seq<MidiMeta>, m: MidiMeta) -> Seq<MidiMeta>
    decreases sorted.len(),
{
    if sorted.len() == 0 || sorted.last().tick <= m.tick {
        sorted.push(m)
    } else {
        insert_by_tick(sorted.drop_last(), m).push(sorted.last())
    }
}

/// `s` ordered by tick, equal ticks keeping their order in `s`.
pub open spec fn sort_by_tick(s: Seq<MidiMeta>) -> Seq<MidiMeta>
    decreases s.len(),
{
    if s.len() == 0 {
        s
    } else {
        insert_by_tick(sort_by_tick(s.drop_last()), s.last())
    }
}

/// Whether `s` is ordered by tick.
pub open spec fn sorted_by_tick(s: Seq<MidiMeta>) -> bool {
    forall|i: int, j: int| 0 <= i <= j < s.len() ==> s[i].tick <= s[j].tick
}

/// Where `insert_by_tick` places `m`.
pub open spec fn insert_position(sorted: Seq<MidiMeta>, m: MidiMeta) -> int
    decreases sorted.len(),
{
    if sorted.len() == 0 || sorted.last().tick <= m.tick {
        sorted.len() as int
    } else {
        insert_position(sorted.drop_last(), m)
    }
}

proof fn lemma_insert_position(sorted: Seq<MidiMeta>, m: MidiMeta)
    ensures
        0 <= insert_position(sorted, m) <= sorted.len(),
        insert_by_tick(sorted, m) == sorted.insert(insert_position(sorted, m), m),
        forall|k: int|
            insert_position(sorted, m) <= k < sorted.len() ==> #[trigger] sorted[k].tick > m.tick,
        insert_position(sorted, m) == 0 || sorted[insert_position(sorted, m) - 1].tick <= m.tick,
    decreases sorted.len(),
{
    if sorted.len() == 0 || sorted.last().tick <= m.tick {
        assert(sorted.push(m) =~= sorted.insert(sorted.len() as int, m));
    } else {
        let rest = sorted.drop_last();
        lemma_insert_position(rest, m);
        let p = insert_position(rest, m);
        assert(rest.insert(p, m).push(sorted.last()) =~= sorted.insert(p, m));
        assert forall|k: int| p <= k < sorted.len() implies #[trigger] sorted[k].tick > m.tick by {
            if k < rest.len() {
                assert(sorted[k] == rest[k]);
            }
        }
    }
}

/// A position with the two properties of `insert_position` is that position.
proof fn lemma_insert_position_unique(sorted: Seq<MidiMeta>, m: MidiMeta, pos: int)
    requires
        0 <= pos <= sorted.len(),
        forall|k: int| pos <= k < sorted.len() ==> #[trigger] sorted[k].tick > m.tick,
        pos == 0 || sorted[pos - 1].tick <= m.tick,
    ensures
        insert_position(sorted, m) == pos,
{
    lemma_insert_position(sorted, m);
    let p = insert_position(sorted, m);
    if p < pos {
        assert(sorted[pos - 1].tick > m.tick);
    } else if pos < p {
        assert(sorted[p - 1].tick > m.tick);
    }
}

proof fn lemma_insert_by_tick_sorted(sorted: Seq<MidiMeta>, m: MidiMeta)
    requires
        sorted_by_tick(sorted),
    ensures
        sorted_by_tick(insert_by_tick(sorted, m)),
        insert_by_tick(sorted, m).to_multiset() == sorted.to_multiset().insert(m),
{
    lemma_insert_position(sorted, m);
    let p = insert_position(sorted, m);
    let r = insert_by_tick(sorted, m);
    assert forall|i: int, j: int| 0 <= i <= j < r.len() implies r[i].tick <= r[j].tick by {
        if i < p && j < p {
        } else if i < p && j == p {
            assert(sorted[i].tick <= sorted[p - 1].tick);
        } else if i < p {
            assert(r[j] == sorted[j - 1]);
        } else if i == p && j > p {
            assert(r[j] == sorted[j - 1]);
        } else if i > p {
            assert(r[i] == sorted[i - 1]);
            assert(r[j] == sorted[j - 1]);
        }
    }
    vstd::seq_lib::to_multiset_insert(sorted, p, m);
}

/// Law: `sort_by_tick` orders by tick and keeps every element, each as often.
pub proof fn lemma_sort_by_tick(s: Seq<MidiMeta>)
    ensures
        sorted_by_tick(sort_by_tick(s)),
        sort_by_tick(s).to_multiset() == s.to_multiset(),
        sort_by_tick(s).len() == s.len(),
    decreases s.len(),
{
    if s.len() == 0 {
    } else {
        lemma_sort_by_tick(s.drop_last());
        lemma_insert_by_tick_sorted(sort_by_tick(s.drop_last()), s.last());
        lemma_insert_position(sort_by_tick(s.drop_last()), s.last());
        vstd::seq_lib::to_multiset_build(s.drop_last(), s.last());
        assert(s.drop_last().push(s.last()) =~= s);
    }
}

// ---------------------------------------------------------------------------
// The tempo map
// ---------------------------------------------------------------------------
/// The tempo and beat in force.
#[derive(Clone, Copy, Debug, PartialEq, Eq, Structural)]
pub struct TempoState {
    pub micros_per_quarter: u32,
    pub beat: u32,
}

/// 120 BPM in four.
pub open spec fn initial_tempo() -> TempoState {
    TempoState { micros_per_quarter: 500_000, beat: 4 }
}

/// The tempo and beat after a change: what it sets, replaced.
pub open spec fn apply_meta(st: TempoState, m: MidiMeta) -> TempoState {
    TempoState {
        micros_per_quarter: match m.tempo {
            Some(t) => t,
            None => st.micros_per_quarter,
        },
        beat: match m.beat {
            Some(b) => b,
            None => st.beat,
        },
    }
}

/// The tempo and beat after the changes of `g`, in order.
pub open spec fn apply_metas(st: TempoState, g: Seq<MidiMeta>) -> TempoState
    decreases g.len(),
{
    if g.len() == 0 {
        st
    } else {
        apply_meta(apply_metas(st, g.drop_last()), g.last())
    }
}

/// Whether one of the changes of `g`, applied in order from `st`, alters
/// what is in force when it comes.
pub open spec fn group_changes(st: TempoState, g: Seq<MidiMeta>) -> bool {
    exists|k: int|
        0 <= k < g.len() && #[trigger] apply_meta(apply_metas(st, g.take(k)), g[k]) != apply_metas(
            st,
            g.take(k),
        )
}

/// One entry of a tempo map: from `tick` on (which is `time` tick-microseconds
/// from the start) the tempo and beat are these.
#[derive(Clone, Copy, Debug, PartialEq, Eq, Structural)]
pub struct TempoChange {
    pub tick: u64,
    pub time: u128,
    pub micros_per_quarter: u32,
    pub beat: u32,
}

/// A tempo map. Times are in tick-microseconds: seconds are
/// `time / (ticks_per_quarter * 1_000_000)`.
#[derive(Debug)]
pub struct TempoMap {
    pub ticks_per_quarter: u16,
    pub tempos: Vec<TempoChange>,
    /// The time of the latest event of the file.
    pub end_time: u128,
}

pub struct TempoMapView {
    pub ticks_per_quarter: u16,
    pub tempos: Seq<TempoChange>,
    pub end_time: u128,
}

impl View for TempoMap {
    type V = TempoMapView;

    open spec fn view(&self) -> TempoMapView {
        TempoMapView {
            ticks_per_quarter: self.ticks_per_quarter,
            tempos: self.tempos@,
            end_time: self.end_time,
        }
    }
}

/// Why no tempo map was made.
#[derive(Clone, Copy, Debug, PartialEq, Eq, Structural)]
pub enum MidiError {
    /// The bytes are not a Standard MIDI File that `midly` reads.
    Malformed,
    /// The file counts time in SMPTE frames, not in ticks per quarter note.
    TimecodeUnsupported,
}

/// The first index after the run of equal ticks that starts at `i`.
pub open spec fn run_end(s: Seq<MidiMeta>, i: int) -> int
    decreases s.len() - i,
{
    if 0 <= i && i + 1 < s.len() && s[i + 1].tick == s[i].tick {
        run_end(s, i + 1)
    } else {
        i + 1
    }
}

/// Where a walk over the changes stands: what is in force, the time and tick
/// of the last group of changes, and the map so far.
pub struct Scan {
    pub current: TempoState,
    pub time: int,
    pub tick: u64,
    pub tempos: Seq<TempoChange>,
}

/// The map's start: 120 BPM in four from tick 0.
pub open spec fn initial_change() -> TempoChange {
    TempoChange { tick: 0, time: 0, micros_per_quarter: 500_000, beat: 4 }
}

pub open spec fn initial_scan() -> Scan {
    Scan { current: initial_tempo(), time: 0, tick: 0, tempos: seq![initial_change()] }
}

/// Walks the changes `s` (ordered by tick) from index `i`, one group of equal
/// ticks at a time. Time advances to the group's tick at the tempo in force;
/// the group's changes are applied in order; if one of them altered what was
/// in force, the map gets an entry for the group's tick with the tempo and
/// beat after the group (at tick 0 it replaces the map's start).
pub open spec fn scan_from(s: Seq<MidiMeta>, i: int, st: Scan) -> Scan
    decreases s.len() - i,
{
    if i < 0 || i >= s.len() {
        st
    } else {
        let tick = s[i].tick;
        let end = run_end(s, i);
        proof {
            lemma_run_end(s, i);
        }
        let time = st.time + (tick - st.tick) * st.current.micros_per_quarter;
        let group = s.subrange(i, end);
        let current = apply_metas(st.current, group);
        let change = TempoChange {
            tick,
            time: time as u128,
            micros_per_quarter: current.micros_per_quarter,
            beat: current.beat,
        };
        let tempos = if !group_changes(st.current, group) {
            st.tempos
        } else if tick == 0 {
            st.tempos.update(0, change)
        } else {
            st.tempos.push(change)
        };
        scan_from(s, end, Scan { current, time, tick, tempos })
    }
}

/// The tempo map of the changes `metas` of a file whose latest event is at
/// `last_tick`.
pub open spec fn tempo_map_of(ticks_per_quarter: u16, metas: Seq<MidiMeta>, last_tick: u64) -> TempoMapView {
    walk_map(ticks_per_quarter, sort_by_tick(metas), last_tick)
}

/// The tempo map of the changes `sorted`, ordered by tick, of a file whose
/// latest event is at `last_tick`; the end time is the time of the last
/// group carried on to `last_tick` at the tempo then in force.
pub open spec fn walk_map(ticks_per_quarter: u16, sorted: Seq<MidiMeta>, last_tick: u64) -> TempoMapView {
    let done = scan_from(sorted, 0, initial_scan());
    TempoMapView {
        ticks_per_quarter,
        tempos: done.tempos,
        end_time: (done.time + (last_tick - done.tick) * done.current.micros_per_quarter) as u128,
    }
}

/// The tempo map of a file's contents.
pub open spec fn smf_tempo_map(c: SmfContentsView) -> Result<TempoMapView, MidiError> {
    match c.timing {
        SmfTiming::Timecode => Err(MidiError::TimecodeUnsupported),
        SmfTiming::Metrical(tpq) => Ok(
            tempo_map_of(
                tpq,
                file_metas(c.tracks, c.tracks.len() as int),
                file_last_tick(c.tracks, c.tracks.len() as int),
            ),
        ),
    }
}

/// The tempo map of a file's bytes.
pub open spec fn midi_tempo_map(bytes: Seq<u8>) -> Result<TempoMapView, MidiError> {
    match smf_read(bytes) {
        None => Err(MidiError::Malformed),
        Some(c) => smf_tempo_map(c),
    }
}

pub open spec fn result_matches(res: Result<TempoMap, MidiError>, spec: Result<TempoMapView, MidiError>) -> bool {
    match spec {
        Ok(v) => res matches Ok(m) && m@ == v,
        Err(e) => res == Err::<TempoMap, MidiError>(e),
    }
}

pub proof fn lemma_run_end(s: Seq<MidiMeta>, i: int)
    requires
        0 <= i < s.len(),
    ensures
        i < run_end(s, i) <= s.len(),
        forall|k: int| i <= k < run_end(s, i) ==> #[trigger] s[k].tick == s[i].tick,
        run_end(s, i) == s.len() || s[run_end(s, i)].tick != s[i].tick,
    decreases s.len() - i,
{
    if i + 1 < s.len() && s[i + 1].tick == s[i].tick {
        lemma_run_end(s, i + 1);
    }
}

/// An end found by walking the run is `run_end`.
proof fn lemma_run_end_unique(s: Seq<MidiMeta>, i: int, j: int)
    requires
        0 <= i < j <= s.len(),
        forall|k: int| i <= k < j ==> #[trigger] s[k].tick == s[i].tick,
        j == s.len() || s[j].tick != s[i].tick,
    ensures
        run_end(s, i) == j,
    decreases j - i,
{
    if i + 1 < j {
        assert(s[i + 1].tick == s[i].tick);
        lemma_run_end_unique(s, i + 1, j);
    }
}


// ---------------------------------------------------------------------------
// Computing the map
// ---------------------------------------------------------------------------
proof fn lemma_tick_after_monotone(track: Seq<SmfEvent>, a: int, b: int)
    requires
        0 <= a <= b,
    ensures
        tick_after(track, a) <= tick_after(track, b),
    decreases b - a,
{
    if a < b {
        lemma_tick_after_monotone(track, a, b - 1);
    }
}

proof fn lemma_track_metas_ticks(track: Seq<SmfEvent>, n: int, bound: u64)
    requires
        0 <= n <= track.len(),
        tick_after(track, n) <= bound,
    ensures
        forall|k: int|
            0 <= k < track_metas(track, n).len() ==> #[trigger] track_metas(track, n)[k].tick <= bound,
    decreases n,
{
    if n > 0 {
        lemma_tick_after_monotone(track, n - 1, n);
        lemma_track_metas_ticks(track, n - 1, bound);
    }
}

/// Law: every change of the first `n` tracks lies at or before their latest tick.
pub proof fn lemma_file_metas_ticks(tracks: Seq<Seq<SmfEvent>>, n: int)
    requires
        0 <= n <= tracks.len(),
    ensures
        forall|k: int|
            0 <= k < file_metas(tracks, n).len() ==> #[trigger] file_metas(tracks, n)[k].tick
                <= file_last_tick(tracks, n),
    decreases n,
{
    if n > 0 {
        lemma_file_metas_ticks(tracks, n - 1);
        let t = tracks[n - 1];
        lemma_track_metas_ticks(t, t.len() as int, file_last_tick(tracks, n));
        let before = file_metas(tracks, n - 1);
        let here = track_metas(t, t.len() as int);
        assert forall|k: int| 0 <= k < file_metas(tracks, n).len() implies #[trigger] file_metas(
            tracks,
            n,
        )[k].tick <= file_last_tick(tracks, n) by {
            if k < before.len() {
                assert(file_metas(tracks, n)[k] == before[k]);
            } else {
                assert(file_metas(tracks, n)[k] == here[k - before.len()]);
            }
        }
    }
}

/// Law: the latest tick of the first `n` tracks is the tick of the last event
/// of one of them, and no event of any of them comes later (0 without tracks).
pub proof fn lemma_file_last_tick(tracks: Seq<Seq<SmfEvent>>, n: int)
    requires
        0 <= n <= tracks.len(),
    ensures
        forall|k: int, e: int|
            0 <= k < n && 0 <= e <= tracks[k].len() ==> #[trigger] tick_after(tracks[k], e)
                <= file_last_tick(tracks, n),
        n > 0 ==> exists|k: int|
            0 <= k < n && file_last_tick(tracks, n) == #[trigger] tick_after(
                tracks[k],
                tracks[k].len() as int,
            ),
        n == 0 ==> file_last_tick(tracks, n) == 0,
    decreases n,
{
    if n > 0 {
        lemma_file_last_tick(tracks, n - 1);
        let t = tracks[n - 1];
        assert forall|k: int, e: int|
            0 <= k < n && 0 <= e <= tracks[k].len() implies #[trigger] tick_after(tracks[k], e)
                <= file_last_tick(tracks, n) by {
            lemma_tick_after_monotone(tracks[k], e, tracks[k].len() as int);
            if k < n - 1 {
                assert(tick_after(tracks[k], e) <= file_last_tick(tracks, n - 1));
            }
        }
        if file_last_tick(tracks, n - 1) < tick_after(t, t.len() as int) {
            assert(file_last_tick(tracks, n) == tick_after(tracks[n - 1], tracks[n - 1].len() as int));
        } else if n > 1 {
            let k = choose|k: int|
                0 <= k < n - 1 && file_last_tick(tracks, n - 1) == #[trigger] tick_after(
                    tracks[k],
                    tracks[k].len() as int,
                );
            assert(file_last_tick(tracks, n) == tick_after(tracks[k], tracks[k].len() as int));
        } else {
            assert(file_last_tick(tracks, n) == tick_after(tracks[0], tracks[0].len() as int));
        }
    }
}

/// Whether an event is a tempo or time-signature change.
pub open spec fn is_change(event: SmfEvent) -> bool {
    !(event.kind is Other)
}

/// How many of the first `n` events of a track are changes.
pub open spec fn change_count(track: Seq<SmfEvent>, n: int) -> nat
    decreases n,
{
    if n <= 0 {
        0
    } else {
        change_count(track, n - 1) + if is_change(track[n - 1]) {
            1nat
        } else {
            0nat
        }
    }
}

/// How many events of the first `n` tracks are changes.
pub open spec fn file_change_count(tracks: Seq<Seq<SmfEvent>>, n: int) -> nat
    decreases n,
{
    if n <= 0 {
        0
    } else {
        file_change_count(tracks, n - 1) + change_count(tracks[n - 1], tracks[n - 1].len() as int)
    }
}

proof fn lemma_change_count_monotone(track: Seq<SmfEvent>, a: int, b: int)
    requires
        0 <= a <= b,
    ensures
        change_count(track, a) <= change_count(track, b),
    decreases b - a,
{
    if a < b {
        lemma_change_count_monotone(track, a, b - 1);
    }
}

proof fn lemma_file_change_count_monotone(tracks: Seq<Seq<SmfEvent>>, a: int, b: int)
    requires
        0 <= a <= b,
    ensures
        file_change_count(tracks, a) <= file_change_count(tracks, b),
    decreases b - a,
{
    if a < b {
        lemma_file_change_count_monotone(tracks, a, b - 1);
    }
}

/// Law: the changes of a track are its tempo and time-signature events, in
/// order, one for each; each is placed at the absolute tick of its event (the
/// sum of the delta times of every event of the track up to and including it,
/// whatever their kind, held at `u64::MAX`) and sets what its event sets.
pub proof fn lemma_track_metas(track: Seq<SmfEvent>, n: int)
    requires
        0 <= n <= track.len(),
    ensures
        track_metas(track, n).len() == change_count(track, n),
        forall|k: int|
            0 <= k < n && is_change(#[trigger] track[k]) ==> {
                let m = track_metas(track, n)[change_count(track, k) as int];
                &&& m.tick == tick_after(track, k + 1)
                &&& m.tempo == (match track[k].kind {
                    SmfEventKind::Tempo(us) => Some(us),
                    _ => None,
                })
                &&& m.beat == (match track[k].kind {
                    SmfEventKind::TimeSignature(b) => Some(b as u32),
                    _ => None,
                })
            },
    decreases n,
{
    if n > 0 {
        lemma_track_metas(track, n - 1);
        let before = track_metas(track, n - 1);
        assert forall|k: int|
            0 <= k < n && is_change(#[trigger] track[k]) implies {
            let m = track_metas(track, n)[change_count(track, k) as int];
            &&& m.tick == tick_after(track, k + 1)
            &&& m.tempo == (match track[k].kind {
                SmfEventKind::Tempo(us) => Some(us),
                _ => None,
            })
            &&& m.beat == (match track[k].kind {
                SmfEventKind::TimeSignature(b) => Some(b as u32),
                _ => None,
            })
        } by {
            if k < n - 1 {
                lemma_change_count_monotone(track, k + 1, n - 1);
                assert(change_count(track, k + 1) == change_count(track, k) + 1);
                assert(track_metas(track, n)[change_count(track, k) as int] == before[change_count(
                    track,
                    k,
                ) as int]);
            }
        }
    }
}

/// Law: the changes of the first `n` tracks are those of each track in turn;
/// the change made by the event `e` of track `t` comes after the changes of
/// the tracks before `t` and of the events before `e`, at the absolute tick
/// of `e` in its track, and sets what `e` sets.
pub proof fn lemma_file_metas(tracks: Seq<Seq<SmfEvent>>, n: int)
    requires
        0 <= n <= tracks.len(),
    ensures
        file_metas(tracks, n).len() == file_change_count(tracks, n),
        forall|t: int, e: int|
            0 <= t < n && 0 <= e < tracks[t].len() && is_change(#[trigger] tracks[t][e]) ==> {
                let m = file_metas(tracks, n)[(file_change_count(tracks, t) + change_count(
                    tracks[t],
                    e,
                )) as int];
                &&& m.tick == tick_after(tracks[t], e + 1)
                &&& m.tempo == (match tracks[t][e].kind {
                    SmfEventKind::Tempo(us) => Some(us),
                    _ => None,
                })
                &&& m.beat == (match tracks[t][e].kind {
                    SmfEventKind::TimeSignature(b) => Some(b as u32),
                    _ => None,
                })
            },
    decreases n,
{
    if n > 0 {
        lemma_file_metas(tracks, n - 1);
        let before = file_metas(tracks, n - 1);
        let last = tracks[n - 1];
        lemma_track_metas(last, last.len() as int);
        let here = track_metas(last, last.len() as int);
        assert forall|t: int, e: int|
            0 <= t < n && 0 <= e < tracks[t].len() && is_change(#[trigger] tracks[t][e]) implies {
            let m = file_metas(tracks, n)[(file_change_count(tracks, t) + change_count(tracks[t], e)) as int];
            &&& m.tick == tick_after(tracks[t], e + 1)
            &&& m.tempo == (match tracks[t][e].kind {
                SmfEventKind::Tempo(us) => Some(us),
                _ => None,
            })
            &&& m.beat == (match tracks[t][e].kind {
                SmfEventKind::TimeSignature(b) => Some(b as u32),
                _ => None,
            })
        } by {
            let idx = (file_change_count(tracks, t) + change_count(tracks[t], e)) as int;
            if t < n - 1 {
                lemma_change_count_monotone(tracks[t], e + 1, tracks[t].len() as int);
                lemma_file_change_count_monotone(tracks, t + 1, n - 1);
                assert(file_metas(tracks, n)[idx] == before[idx]);
            } else {
                let c = change_count(last, e);
                lemma_change_count_monotone(last, e + 1, last.len() as int);
                assert(last[e] == tracks[t][e]);
                assert(file_metas(tracks, n)[idx] == here[c as int]);
            }
        }
    }
}

/// The changes of all tracks, in order, and the latest tick of any event.
fn collect_metas(tracks: &Vec<Vec<SmfEvent>>) -> (res: (Vec<MidiMeta>, u64))
    ensures
        res.0@ == file_metas(tracks@.map_values(|t: Vec<SmfEvent>| t@), tracks@.len() as int),
        res.1 == file_last_tick(tracks@.map_values(|t: Vec<SmfEvent>| t@), tracks@.len() as int),
{
    let ghost tv = tracks@.map_values(|t: Vec<SmfEvent>| t@);
    let mut metas: Vec<MidiMeta> = Vec::new();
    let mut last_tick: u64 = 0;
    let mut ti: usize = 0;
    while ti < tracks.len()
        invariant
            0 <= ti <= tracks.len(),
            tv == tracks@.map_values(|t: Vec<SmfEvent>| t@),
            metas@ == file_metas(tv, ti as int),
            last_tick == file_last_tick(tv, ti as int),
        decreases tracks.len() - ti,
    {
        let track = &tracks[ti];
        assert(tv[ti as int] == track@);
        let mut tick: u64 = 0;
        let mut ei: usize = 0;
        while ei < track.len()
            invariant
                0 <= ei <= track.len(),
                0 <= ti < tracks.len(),
                tv == tracks@.map_values(|t: Vec<SmfEvent>| t@),
                tv[ti as int] == track@,
                tick == tick_after(track@, ei as int),
                metas@ == file_metas(tv, ti as int) + track_metas(track@, ei as int),
                last_tick == (if file_last_tick(tv, ti as int) < tick {
                    tick
                } else {
                    file_last_tick(tv, ti as int)
                }),
            decreases track.len() - ei,
        {
            let event = track[ei];
            let ghost before = metas@;
            tick = tick.saturating_add(event.delta as u64);
            if tick > last_tick {
                last_tick = tick;
            }
            match event.kind {
                SmfEventKind::Tempo(us) => {
                    metas.push(MidiMeta { tick, tempo: Some(us), beat: None });
                },
                SmfEventKind::TimeSignature(n) => {
                    metas.push(MidiMeta { tick, tempo: None, beat: Some(n as u32) });
                },
                SmfEventKind::Other => {},
            }
            ei = ei + 1;
            proof {
                let a = file_metas(tv, ti as int);
                let b = track_metas(track@, ei - 1);
                assert(before == a + b);
                if meta_at(event, tick) is Some {
                    assert(metas@ =~= a + b.push(meta_at(event, tick).unwrap()));
                } else {
                    assert(metas@ =~= a + b);
                }
            }
        }
        ti = ti + 1;
        assert(metas@ =~= file_metas(tv, ti as int));
    }
    (metas, last_tick)
}

/// `metas` ordered by tick, equal ticks keeping their order (insertion sort).
fn sort_metas(metas: &Vec<MidiMeta>) -> (sorted: Vec<MidiMeta>)
    ensures
        sorted@ == sort_by_tick(metas@),
{
    let mut sorted: Vec<MidiMeta> = Vec::new();
    let mut i: usize = 0;
    while i < metas.len()
        invariant
            0 <= i <= metas.len(),
            sorted@ == sort_by_tick(metas@.take(i as int)),
        decreases metas.len() - i,
    {
        let m = metas[i];
        let mut pos: usize = sorted.len();
        while pos > 0 && sorted[pos - 1].tick > m.tick
            invariant
                0 <= pos <= sorted.len(),
                forall|k: int| pos <= k < sorted.len() ==> #[trigger] sorted@[k].tick > m.tick,
            decreases pos,
        {
            pos = pos - 1;
        }
        proof {
            lemma_insert_position_unique(sorted@, m, pos as int);
            lemma_insert_position(sorted@, m);
            assert(metas@.take(i + 1).drop_last() =~= metas@.take(i as int));
        }
        sorted.insert(pos, m);
        i = i + 1;
    }
    assert(metas@.take(metas.len() as int) =~= metas@);
    sorted
}

/// Time carried from `prev` to `tick` at `us` stays within `tick * u32::MAX`,
/// which fits in a `u128`.
proof fn lemma_time_step(time: int, prev: u64, tick: u64, us: u32)
    requires
        0 <= time <= prev * 0xffff_ffff,
        prev <= tick,
    ensures
        0 <= time + (tick - prev) * us <= tick * 0xffff_ffff,
        tick * 0xffff_ffff < 0x1_0000_0000_0000_0000_0000_0000,
{
    assert(0 <= (tick - prev) * us <= (tick - prev) * 0xffff_ffff) by (nonlinear_arith)
        requires
            prev <= tick,
            us <= 0xffff_ffff,
    ;
    assert(prev * 0xffff_ffff + (tick - prev) * 0xffff_ffff == tick * 0xffff_ffff) by (nonlinear_arith);
    assert(tick * 0xffff_ffff < 0x1_0000_0000_0000_0000_0000_0000) by (nonlinear_arith)
        requires
            tick <= 0xffff_ffff_ffff_ffff,
    ;
}

proof fn lemma_group_changes_push(st: TempoState, g: Seq<MidiMeta>, m: MidiMeta)
    ensures
        apply_metas(st, g.push(m)) == apply_meta(apply_metas(st, g), m),
        group_changes(st, g.push(m)) == (group_changes(st, g) || apply_meta(apply_metas(st, g), m)
            != apply_metas(st, g)),
{
    let h = g.push(m);
    assert(h.drop_last() =~= g);
    assert forall|k: int| 0 <= k <= g.len() implies #[trigger] h.take(k) == g.take(k) by {
        assert(h.take(k) =~= g.take(k));
    }
    assert(h.take(g.len() as int) == g);
    if group_changes(st, g) {
        let k = choose|k: int|
            0 <= k < g.len() && #[trigger] apply_meta(apply_metas(st, g.take(k)), g[k])
                != apply_metas(st, g.take(k));
        assert(h.take(k) == g.take(k));
        assert(h[k] == g[k]);
        assert(apply_meta(apply_metas(st, h.take(k)), h[k]) != apply_metas(st, h.take(k)));
    }
    if apply_meta(apply_metas(st, g), m) != apply_metas(st, g) {
        let k = g.len() as int;
        assert(h[k] == m);
        assert(apply_meta(apply_metas(st, h.take(k)), h[k]) != apply_metas(st, h.take(k)));
    }
    if group_changes(st, h) {
        let k = choose|k: int|
            0 <= k < h.len() && #[trigger] apply_meta(apply_metas(st, h.take(k)), h[k])
                != apply_metas(st, h.take(k));
        if k < g.len() {
            assert(h.take(k) == g.take(k));
            assert(h[k] == g[k]);
            assert(apply_meta(apply_metas(st, g.take(k)), g[k]) != apply_metas(st, g.take(k)));
        }
    }
}

/// Walks the changes `sorted` into a tempo map.
fn build_tempo_map(ticks_per_quarter: u16, sorted: &Vec<MidiMeta>, last_tick: u64) -> (map: TempoMap)
    requires
        sorted_by_tick(sorted@),
        forall|k: int| 0 <= k < sorted@.len() ==> #[trigger] sorted@[k].tick <= last_tick,
    ensures
        map@ == walk_map(ticks_per_quarter, sorted@, last_tick),
{
    let ghost s = sorted@;
    let mut tempos: Vec<TempoChange> = Vec::new();
    tempos.push(TempoChange { tick: 0, time: 0, micros_per_quarter: 500_000, beat: 4 });
    let mut current = TempoState { micros_per_quarter: 500_000, beat: 4 };
    let mut time: u128 = 0;
    let mut prev: u64 = 0;
    let mut index: usize = 0;
    assert(tempos@ =~= seq![initial_change()]);
    while index < sorted.len()
        invariant
            0 <= index <= sorted.len(),
            s == sorted@,
            sorted_by_tick(s),
            forall|k: int| 0 <= k < s.len() ==> #[trigger] s[k].tick <= last_tick,
            index == 0 ==> prev == 0,
            index > 0 ==> prev == s[index - 1].tick,
            time <= prev * 0xffff_ffff,
            prev <= last_tick,
            tempos@.len() >= 1,
            scan_from(s, index as int, Scan { current, time: time as int, tick: prev, tempos: tempos@ })
                == scan_from(s, 0, initial_scan()),
        decreases sorted.len() - index,
    {
        let tick = sorted[index].tick;
        let ghost st0 = Scan { current, time: time as int, tick: prev, tempos: tempos@ };
        let start = index;
        proof {
            lemma_time_step(time as int, prev, tick, current.micros_per_quarter);
        }
        time = time + (tick - prev) as u128 * current.micros_per_quarter as u128;
        prev = tick;
        let mut changed = false;
        let ghost before = current;
        assert(s.subrange(start as int, start as int) =~= Seq::<MidiMeta>::empty());
        while index < sorted.len() && sorted[index].tick == tick
            invariant
                start <= index <= sorted.len(),
                start < sorted.len(),
                s == sorted@,
                s[start as int].tick == tick,
                forall|k: int| start <= k < index ==> #[trigger] s[k].tick == tick,
                current == apply_metas(before, s.subrange(start as int, index as int)),
                changed == group_changes(before, s.subrange(start as int, index as int)),
            decreases sorted.len() - index,
        {
            let m = sorted[index];
            proof {
                lemma_group_changes_push(before, s.subrange(start as int, index as int), m);
                assert(s.subrange(start as int, index + 1) =~= s.subrange(start as int, index as int).push(m));
            }
            if let Some(t) = m.tempo {
                if current.micros_per_quarter != t {
                    current.micros_per_quarter = t;
                    changed = true;
                }
            }
            if let Some(b) = m.beat {
                if current.beat != b {
                    current.beat = b;
                    changed = true;
                }
            }
            index = index + 1;
        }
        proof {
            lemma_run_end_unique(s, start as int, index as int);
        }
        if changed {
            let change = TempoChange {
                tick,
                time,
                micros_per_quarter: current.micros_per_quarter,
                beat: current.beat,
            };
            if tick == 0 {
                tempos.set(0, change);
            } else {
                tempos.push(change);
            }
        }
        assert(scan_from(s, start as int, st0) == scan_from(
            s,
            index as int,
            Scan { current, time: time as int, tick: prev, tempos: tempos@ },
        ));
    }
    proof {
        lemma_time_step(time as int, prev, last_tick, current.micros_per_quarter);
    }
    let end_time = time + (last_tick - prev) as u128 * current.micros_per_quarter as u128;
    TempoMap { ticks_per_quarter, tempos, end_time }
}

/// The tempo map of what `midly` read from a file.
pub fn tempo_map_from_smf(contents: &SmfContents) -> (res: Result<TempoMap, MidiError>)
    ensures
        result_matches(res, smf_tempo_map(contents@)),
{
    let ticks_per_quarter = match contents.timing {
        SmfTiming::Metrical(t) => t,
        SmfTiming::Timecode => return Err(MidiError::TimecodeUnsupported),
    };
    let (metas, last_tick) = collect_metas(&contents.tracks);
    let ghost tv = contents@.tracks;
    proof {
        lemma_file_metas_ticks(tv, tv.len() as int);
    }
    let sorted = sort_metas(&metas);
    proof {
        broadcast use vstd::seq_lib::group_to_multiset_ensures;

        lemma_sort_by_tick(metas@);
        assert forall|k: int| 0 <= k < sorted@.len() implies #[trigger] sorted@[k].tick <= last_tick by {
            assert(sorted@.to_multiset().count(sorted@[k]) > 0);
            assert(metas@.contains(sorted@[k]));
        }
    }
    Ok(build_tempo_map(ticks_per_quarter, &sorted, last_tick))
}

/// The tempo map of a Standard MIDI File given as bytes.
pub fn parse_midi(bytes: &[u8]) -> (res: Result<TempoMap, MidiError>)
    ensures
        result_matches(res, midi_tempo_map(bytes@)),
{
    match read_smf(bytes) {
        Ok(contents) => tempo_map_from_smf(&contents),
        Err(_) => Err(MidiError::Malformed),
    }
}

// ---------------------------------------------------------------------------
// Laws
// ---------------------------------------------------------------------------
/// The changes at tick `t`.
pub open spec fn at_tick(t: u64) -> spec_fn(MidiMeta) -> bool {
    |m: MidiMeta| m.tick == t
}

/// The changes at or before tick `t`.
pub open spec fn up_to(t: u64) -> spec_fn(MidiMeta) -> bool {
    |m: MidiMeta| m.tick <= t
}

/// The tempo and beat in force at tick `t`: those after every change of
/// `sorted` at or before `t`, applied in order.
pub open spec fn in_force(sorted: Seq<MidiMeta>, t: u64) -> TempoState {
    apply_metas(initial_tempo(), sorted.filter(up_to(t)))
}

/// The tempo and beat that an entry of a map states.
pub open spec fn stated(c: TempoChange) -> TempoState {
    TempoState { micros_per_quarter: c.micros_per_quarter, beat: c.beat }
}

proof fn lemma_filter_insert_by_tick(r: Seq<MidiMeta>, m: MidiMeta, t: u64)
    ensures
        insert_by_tick(r, m).filter(at_tick(t)) == (if m.tick == t {
            r.filter(at_tick(t)).push(m)
        } else {
            r.filter(at_tick(t))
        }),
    decreases r.len(),
{
    reveal(Seq::filter);
    if r.len() == 0 || r.last().tick <= m.tick {
        assert(r.push(m).drop_last() =~= r);
    } else {
        let rest = r.drop_last();
        lemma_filter_insert_by_tick(rest, m, t);
        let inner = insert_by_tick(rest, m);
        assert(inner.push(r.last()).drop_last() =~= inner);
        assert(rest.push(r.last()) =~= r);
    }
}

/// Law: ordering by tick keeps, for every tick, the changes at that tick in
/// their order in the file.
pub proof fn lemma_sort_by_tick_stable(s: Seq<MidiMeta>, t: u64)
    ensures
        sort_by_tick(s).filter(at_tick(t)) == s.filter(at_tick(t)),
    decreases s.len(),
{
    reveal(Seq::filter);
    if s.len() > 0 {
        lemma_sort_by_tick_stable(s.drop_last(), t);
        lemma_filter_insert_by_tick(sort_by_tick(s.drop_last()), s.last(), t);
    }
}

proof fn lemma_apply_metas_concat(st: TempoState, a: Seq<MidiMeta>, b: Seq<MidiMeta>)
    ensures
        apply_metas(st, a + b) == apply_metas(apply_metas(st, a), b),
    decreases b.len(),
{
    if b.len() == 0 {
        assert(a + b =~= a);
    } else {
        lemma_apply_metas_concat(st, a, b.drop_last());
        assert((a + b).drop_last() =~= a + b.drop_last());
    }
}

proof fn lemma_no_change(st: TempoState, g: Seq<MidiMeta>)
    requires
        !group_changes(st, g),
    ensures
        apply_metas(st, g) == st,
    decreases g.len(),
{
    if g.len() > 0 {
        let rest = g.drop_last();
        assert(rest.push(g.last()) =~= g);
        lemma_group_changes_push(st, rest, g.last());
        lemma_no_change(st, rest);
    }
}

/// In an ordered `s`, the changes at or before `t` are the first `k`.
proof fn lemma_filter_up_to(s: Seq<MidiMeta>, t: u64, k: int)
    requires
        0 <= k <= s.len(),
        forall|i: int| 0 <= i < k ==> #[trigger] s[i].tick <= t,
        forall|i: int| k <= i < s.len() ==> #[trigger] s[i].tick > t,
    ensures
        s.filter(up_to(t)) == s.take(k),
    decreases s.len(),
{
    reveal(Seq::filter);
    if s.len() == 0 {
        assert(s.take(k) =~= s);
    } else {
        let rest = s.drop_last();
        if k == s.len() {
            lemma_filter_up_to(rest, t, k - 1);
            assert(rest.take(k - 1).push(s.last()) =~= s.take(k));
        } else {
            lemma_filter_up_to(rest, t, k);
            assert(rest.take(k) =~= s.take(k));
        }
    }
}

/// The time at tick `t`, in tick-microseconds: the sum, over the ticks
/// before `t`, of the tempo in force at each.
pub open spec fn elapsed(sorted: Seq<MidiMeta>, t: nat) -> int
    decreases t,
{
    if t == 0 {
        0
    } else {
        elapsed(sorted, (t - 1) as nat) + in_force(sorted, (t - 1) as u64).micros_per_quarter
    }
}

proof fn lemma_elapsed_steady(sorted: Seq<MidiMeta>, a: u64, b: u64, us: u32)
    requires
        a <= b,
        forall|x: u64| a <= x < b ==> #[trigger] in_force(sorted, x).micros_per_quarter == us,
    ensures
        elapsed(sorted, b as nat) == elapsed(sorted, a as nat) + (b - a) * us,
    decreases b - a,
{
    if a < b {
        let p = (b - 1) as u64;
        lemma_elapsed_steady(sorted, a, p, us);
        assert(in_force(sorted, p).micros_per_quarter == us);
        assert((b as nat - 1) as nat == p as nat);
        assert(elapsed(sorted, b as nat) == elapsed(sorted, p as nat) + us);
        assert((p - a) * us + us == (b - a) * us) by (nonlinear_arith)
            requires
                p == b - 1,
        ;
    } else {
        assert((b - a) * us == 0) by (nonlinear_arith)
            requires
                a == b,
        ;
    }
}

/// What holds of a walk over ordered changes at the start of each group.
spec fn scan_ok(s: Seq<MidiMeta>, i: int, st: Scan) -> bool {
    &&& 0 <= i <= s.len()
    &&& sorted_by_tick(s)
    &&& 0 <= st.time <= st.tick * 0xffff_ffff
    &&& st.current == apply_metas(initial_tempo(), s.take(i))
    &&& (i == 0 ==> st.tick == 0 && st.time == 0 && st.tempos == seq![initial_change()])
    &&& (0 < i ==> st.tick == s[i - 1].tick)
    &&& (0 < i < s.len() ==> s[i - 1].tick < s[i].tick)
    &&& st.tempos.len() >= 1
    &&& st.tempos[0].tick == 0
    &&& st.tempos[0].time == 0
    &&& forall|a: int, b: int|
        0 <= a < b < st.tempos.len() ==> #[trigger] st.tempos[a].tick < #[trigger] st.tempos[b].tick
            && st.tempos[a].time <= st.tempos[b].time
    &&& forall|a: int|
        0 <= a < st.tempos.len() ==> #[trigger] st.tempos[a].tick <= st.tick && st.tempos[a].time
            <= st.time
    &&& (0 < i ==> forall|a: int|
        0 <= a < st.tempos.len() ==> stated(#[trigger] st.tempos[a]) == in_force(
            s,
            st.tempos[a].tick,
        ))
    &&& st.time == elapsed(s, st.tick as nat)
    &&& forall|a: int|
        0 <= a < st.tempos.len() ==> #[trigger] st.tempos[a].time == elapsed(
            s,
            st.tempos[a].tick as nat,
        )
}

/// What a walk has covered: each entry states what is in force from its tick
/// up to the next entry, and the last one up to the group at `i`.
#[verifier::opaque]
spec fn scan_complete(s: Seq<MidiMeta>, i: int, st: Scan) -> bool {
    &&& st.tempos.len() >= 1
    &&& stated(st.tempos.last()) == st.current
    &&& forall|a: int, t: u64|
        #![trigger st.tempos[a], in_force(s, t)]
        0 <= a && a + 1 < st.tempos.len() && st.tempos[a].tick <= t < st.tempos[a + 1].tick
            ==> stated(st.tempos[a]) == in_force(s, t)
    &&& forall|t: u64|
        st.tempos.last().tick <= t && (i < s.len() ==> t < s[i].tick) ==> #[trigger] in_force(s, t)
            == stated(st.tempos.last())
}

/// The walk's state after the group at `i`.
spec fn scan_next(s: Seq<MidiMeta>, i: int, st: Scan) -> Scan {
    let tick = s[i].tick;
    let group = s.subrange(i, run_end(s, i));
    let time = st.time + (tick - st.tick) * st.current.micros_per_quarter;
    let current = apply_metas(st.current, group);
    let change = TempoChange {
        tick,
        time: time as u128,
        micros_per_quarter: current.micros_per_quarter,
        beat: current.beat,
    };
    let tempos = if !group_changes(st.current, group) {
        st.tempos
    } else if tick == 0 {
        st.tempos.update(0, change)
    } else {
        st.tempos.push(change)
    };
    Scan { current, time, tick, tempos }
}

proof fn lemma_scan_complete_step(s: Seq<MidiMeta>, i: int, st: Scan)
    requires
        sorted_by_tick(s),
        0 <= i < s.len(),
        st.current == apply_metas(initial_tempo(), s.take(i)),
        i == 0 ==> st.tempos == seq![initial_change()],
        0 < i ==> s[i - 1].tick < s[i].tick,
        scan_complete(s, i, st),
    ensures
        scan_complete(s, run_end(s, i), scan_next(s, i, st)),
{
    reveal(scan_complete);
    let tick = s[i].tick;
    let end = run_end(s, i);
    lemma_run_end(s, i);
    let group = s.subrange(i, end);
    let next = scan_next(s, i, st);
    let current = next.current;
    let tempos = next.tempos;
    let changed = group_changes(st.current, group);
    assert(s.take(i) + group =~= s.take(end));
    lemma_apply_metas_concat(initial_tempo(), s.take(i), group);
    if !changed {
        lemma_no_change(st.current, group);
    }
    assert(i > 0 ==> tick > 0) by {
        if i > 0 {
            assert(s[i - 1].tick < s[i].tick);
        }
    }
    assert(end < s.len() ==> tick < s[end].tick) by {
        if end < s.len() {
            assert(s[end - 1].tick == tick);
        }
    }
    assert forall|t: u64|
        tick <= t && (end < s.len() ==> t < s[end].tick) implies #[trigger] in_force(s, t)
        == current by {
        assert forall|k: int| 0 <= k < end implies #[trigger] s[k].tick <= t by {
            assert(s[k].tick <= s[end - 1].tick);
        }
        assert forall|k: int| end <= k < s.len() implies #[trigger] s[k].tick > t by {
            assert(s[end].tick <= s[k].tick);
        }
        lemma_filter_up_to(s, t, end);
    }
    assert(stated(tempos.last()) == current);
    assert forall|t: u64|
        tempos.last().tick <= t && (end < s.len() ==> t < s[end].tick) implies #[trigger] in_force(
        s,
        t,
    ) == stated(tempos.last()) by {
        if t < tick {
            assert(!changed);
            assert(in_force(s, t) == stated(st.tempos.last()));
        }
    }
    assert forall|a: int, t: u64|
        0 <= a && a + 1 < tempos.len() && tempos[a].tick <= t < tempos[a + 1].tick implies stated(
        #[trigger] tempos[a],
    ) == #[trigger] in_force(s, t) by {
        if changed && tick > 0 && a + 1 == st.tempos.len() {
            assert(tempos[a] == st.tempos.last());
            assert(in_force(s, t) == stated(st.tempos.last()));
        } else {
            assert(tempos[a] == st.tempos[a]);
            assert(tempos[a + 1] == st.tempos[a + 1]);
        }
    }
}

proof fn lemma_scan_complete_start(s: Seq<MidiMeta>)
    requires
        sorted_by_tick(s),
    ensures
        scan_complete(s, 0, initial_scan()),
{
    reveal(scan_complete);
    assert forall|t: u64| 0 <= t && (0 < s.len() ==> t < s[0].tick) implies #[trigger] in_force(s, t)
        == initial_tempo() by {
        assert forall|k: int| 0 <= k < s.len() implies #[trigger] s[k].tick > t by {
            assert(s[0].tick <= s[k].tick);
        }
        lemma_filter_up_to(s, t, 0);
        assert(s.take(0) =~= Seq::<MidiMeta>::empty());
    }
}

/// At the end of a walk, each entry states what is in force from its tick up
/// to the next entry's, and the last entry from its tick on.
proof fn lemma_scan_complete_end(s: Seq<MidiMeta>, st: Scan)
    requires
        scan_complete(s, s.len() as int, st),
    ensures
        forall|a: int, t: u64|
            #![trigger st.tempos[a], in_force(s, t)]
            0 <= a < st.tempos.len() && st.tempos[a].tick <= t && (a + 1 == st.tempos.len() || t
                < st.tempos[a + 1].tick) ==> stated(st.tempos[a]) == in_force(s, t),
{
    reveal(scan_complete);
}

proof fn lemma_scan(s: Seq<MidiMeta>, i: int, st: Scan)
    requires
        scan_ok(s, i, st),
        scan_complete(s, i, st),
    ensures
        scan_ok(s, s.len() as int, scan_from(s, i, st)),
        scan_complete(s, s.len() as int, scan_from(s, i, st)),
    decreases s.len() - i,
{
    if i < s.len() {
        let tick = s[i].tick;
        let end = run_end(s, i);
        lemma_run_end(s, i);
        let time = st.time + (tick - st.tick) * st.current.micros_per_quarter;
        let group = s.subrange(i, end);
        let current = apply_metas(st.current, group);
        let change = TempoChange {
            tick,
            time: time as u128,
            micros_per_quarter: current.micros_per_quarter,
            beat: current.beat,
        };
        let changed = group_changes(st.current, group);
        let tempos = if !changed {
            st.tempos
        } else if tick == 0 {
            st.tempos.update(0, change)
        } else {
            st.tempos.push(change)
        };
        let next = Scan { current, time, tick, tempos };
        assert(scan_from(s, i, st) == scan_from(s, end, next));
        assert(st.tick <= tick);
        lemma_time_step(st.time, st.tick, tick, st.current.micros_per_quarter);
        assert(change.time == time);
        assert(s.take(i) + group =~= s.take(end));
        lemma_apply_metas_concat(initial_tempo(), s.take(i), group);
        assert(end < s.len() ==> tick < s[end].tick) by {
            if end < s.len() {
                assert(s[end - 1].tick == tick);
            }
        }
        assert forall|k: int| 0 <= k < end implies #[trigger] s[k].tick <= tick by {
            assert(s[end - 1].tick == tick);
        }
        assert forall|k: int| end <= k < s.len() implies #[trigger] s[k].tick > tick by {
            assert(s[end].tick <= s[k].tick);
        }
        lemma_filter_up_to(s, tick, end);
        assert(stated(change) == in_force(s, tick));
        assert forall|x: u64| st.tick <= x < tick implies #[trigger] in_force(s, x).micros_per_quarter
            == st.current.micros_per_quarter by {
            assert forall|k: int| 0 <= k < i implies #[trigger] s[k].tick <= x by {
                assert(s[k].tick <= s[i - 1].tick);
            }
            assert forall|k: int| i <= k < s.len() implies #[trigger] s[k].tick > x by {
                assert(s[i].tick <= s[k].tick);
            }
            lemma_filter_up_to(s, x, i);
        }
        lemma_elapsed_steady(s, st.tick, tick, st.current.micros_per_quarter);
        if i == 0 {
            if tick > 0 {
                assert forall|k: int| 0 <= k < s.len() implies #[trigger] s[k].tick > 0u64 by {
                    assert(s[0].tick <= s[k].tick);
                }
                lemma_filter_up_to(s, 0, 0);
                assert(s.take(0) =~= Seq::<MidiMeta>::empty());
                assert(in_force(s, 0) == initial_tempo());
            } else if !changed {
                lemma_no_change(st.current, group);
                assert(s.take(0) =~= Seq::<MidiMeta>::empty());
                assert(apply_metas(initial_tempo(), s.take(0)) == initial_tempo());
            }
        }
        assert(scan_ok(s, end, next));
        assert(next == scan_next(s, i, st));
        lemma_scan_complete_step(s, i, st);
        lemma_scan(s, end, next);
    }
}

/// Law: a tempo map starts at tick 0 and time 0; its entries come at strictly
/// increasing ticks and non-decreasing times, none after the end; and each
/// entry states the tempo and beat in force at its tick, after every change
/// up to that tick (in order of tick, and of the file at equal ticks), at the
/// time `elapsed` gives for that tick. The map misses no change: at every
/// tick the tempo and beat in force are those that the last entry at or
/// before it states. The end is the time of `last_tick`.
pub proof fn lemma_tempo_map_laws(ticks_per_quarter: u16, metas: Seq<MidiMeta>, last_tick: u64)
    requires
        forall|k: int| 0 <= k < metas.len() ==> #[trigger] metas[k].tick <= last_tick,
    ensures
        ({
            let m = tempo_map_of(ticks_per_quarter, metas, last_tick);
            let s = sort_by_tick(metas);
            &&& m.ticks_per_quarter == ticks_per_quarter
            &&& m.tempos.len() >= 1
            &&& m.tempos[0].tick == 0
            &&& m.tempos[0].time == 0
            &&& forall|a: int, b: int|
                0 <= a < b < m.tempos.len() ==> #[trigger] m.tempos[a].tick < #[trigger] m.tempos[b].tick
                    && m.tempos[a].time <= m.tempos[b].time
            &&& forall|a: int|
                0 <= a < m.tempos.len() ==> #[trigger] m.tempos[a].tick <= last_tick
                    && m.tempos[a].time <= m.end_time
            &&& forall|a: int|
                0 <= a < m.tempos.len() ==> stated(#[trigger] m.tempos[a]) == in_force(
                    s,
                    m.tempos[a].tick,
                ) && m.tempos[a].time == elapsed(s, m.tempos[a].tick as nat)
            &&& forall|a: int, t: u64|
                #![trigger m.tempos[a], in_force(s, t)]
                0 <= a < m.tempos.len() && m.tempos[a].tick <= t && (a + 1 == m.tempos.len() || t
                    < m.tempos[a + 1].tick) ==> stated(m.tempos[a]) == in_force(s, t)
            &&& m.end_time == elapsed(s, last_tick as nat)
        }),
{
    broadcast use vstd::seq_lib::group_to_multiset_ensures;

    let s = sort_by_tick(metas);
    lemma_sort_by_tick(metas);
    assert(s.take(0) =~= Seq::<MidiMeta>::empty());
    lemma_scan_complete_start(s);
    assert(scan_ok(s, 0, initial_scan()));
    lemma_scan(s, 0, initial_scan());
    let done = scan_from(s, 0, initial_scan());
    lemma_scan_complete_end(s, done);
    if s.len() == 0 {
        assert(s.filter(up_to(0)) =~= s);
    } else {
        assert(metas.contains(s[s.len() - 1])) by {
            assert(s.to_multiset().count(s[s.len() - 1]) > 0);
        }
        assert(done.tick <= last_tick);
    }
    lemma_time_step(done.time, done.tick, last_tick, done.current.micros_per_quarter);
    assert forall|x: u64| done.tick <= x < last_tick implies #[trigger] in_force(
        s,
        x,
    ).micros_per_quarter == done.current.micros_per_quarter by {
        assert forall|k: int| 0 <= k < s.len() implies #[trigger] s[k].tick <= x by {
            assert(s[k].tick <= s[s.len() - 1].tick);
        }
        lemma_filter_up_to(s, x, s.len() as int);
        assert(s.take(s.len() as int) =~= s);
    }
    lemma_elapsed_steady(s, done.tick, last_tick, done.current.micros_per_quarter);
}

/// Law: the laws of `lemma_tempo_map_laws` hold of the tempo map of every
/// file that has one, with the file's latest tick as `last_tick`.
pub proof fn lemma_smf_tempo_map_laws(c: SmfContentsView)
    ensures
        ({
            let n = c.tracks.len() as int;
            let s = sort_by_tick(file_metas(c.tracks, n));
            let last_tick = file_last_tick(c.tracks, n);
            smf_tempo_map(c) matches Ok(m) ==> {
                &&& m.tempos.len() >= 1
                &&& m.tempos[0].tick == 0
                &&& m.tempos[0].time == 0
                &&& forall|a: int, b: int|
                    0 <= a < b < m.tempos.len() ==> #[trigger] m.tempos[a].tick
                        < #[trigger] m.tempos[b].tick && m.tempos[a].time <= m.tempos[b].time
                &&& forall|a: int|
                    0 <= a < m.tempos.len() ==> #[trigger] m.tempos[a].tick <= last_tick
                        && m.tempos[a].time <= m.end_time
                &&& forall|a: int|
                    0 <= a < m.tempos.len() ==> stated(#[trigger] m.tempos[a]) == in_force(
                        s,
                        m.tempos[a].tick,
                    ) && m.tempos[a].time == elapsed(s, m.tempos[a].tick as nat)
                &&& forall|a: int, t: u64|
                    #![trigger m.tempos[a], in_force(s, t)]
                    0 <= a < m.tempos.len() && m.tempos[a].tick <= t && (a + 1 == m.tempos.len()
                        || t < m.tempos[a + 1].tick) ==> stated(m.tempos[a]) == in_force(s, t)
                &&& m.end_time == elapsed(s, last_tick as nat)
            }
        }),
{
    let n = c.tracks.len() as int;
    lemma_file_metas_ticks(c.tracks, n);
    if let SmfTiming::Metrical(tpq) = c.timing {
        lemma_tempo_map_laws(tpq, file_metas(c.tracks, n), file_last_tick(c.tracks, n));
    }
}

} // verus!
