//! The note timeline of a file: which notes sound, on which track and channel,
//! from when and for how long, with track names, a title and a total duration.
//!
//! Times are exact: `start` and `dur` are time units of the file's clock, and
//! `units_per_second` says how many of them make a second (see `timebase`).

use vstd::prelude::*;
use crate::smf::{event_in_range, file_in_range, midly_parse, read_smf, smf_parse, SmfFile, midly_error_text, track_view, EventKind, EventKindModel, SmfModel, Timing, TrackEvent, TrackEventModel};
use crate::sort::{law_sort_keeps_each, law_sort_orders, law_sort_permutes, sort_by_start, sort_notes, sorted_by_start};
use crate::timebase::{
    insert_tempo, law_tempo_insert_sorted, units_per_second, units_per_second_of, law_time_monotone, lemma_tempo_view_fits, strictly_sorted, TempoChange, tempo_insert, tempo_view, tick_limit, time_units, units_at,
};

verus! {

/// Number of (channel, key) pairs that can hold a sounding note.
pub const NOTE_SLOTS: usize = 2048;

/// One note of the timeline.
#[derive(Clone, Copy, Debug, PartialEq, Eq, Structural)]
pub struct Note {
    /// Index of the track the note was read from.
    pub track: usize,
    pub channel: u8,
    /// MIDI key number.
    pub note: u8,
    /// Onset, in time units from the start of the file.
    pub start: u128,
    /// Length, in time units.
    pub dur: u128,
    /// Velocity of the Note On that started it.
    pub velocity: u8,
}

/// A track's place in the file and its name, if it has one.
#[derive(Clone, Debug)]
pub struct TrackInfo {
    pub index: usize,
    pub name: Option<String>,
}

/// The timeline of a whole file.
#[derive(Clone, Debug)]
pub struct MidiData {
    /// Name of the first track that has one.
    pub title: Option<String>,
    /// Time units in one second.
    pub units_per_second: u128,
    /// End of the last note to end, in time units (0 without notes).
    pub duration: u128,
    pub tracks: Vec<TrackInfo>,
    /// All notes, ordered by onset; notes with the same onset keep the order
    /// in which they were read.
    pub notes: Vec<Note>,
}

pub struct NoteModel {
    pub track: int,
    pub channel: int,
    pub key: int,
    pub start: int,
    pub dur: int,
    pub velocity: int,
}

pub struct TrackInfoModel {
    pub index: int,
    pub name: Option<Seq<char>>,
}

pub struct MidiDataModel {
    pub title: Option<Seq<char>>,
    pub units_per_second: int,
    pub duration: int,
    pub tracks: Seq<TrackInfoModel>,
    pub notes: Seq<NoteModel>,
}

impl View for Note {
    type V = NoteModel;

    open spec fn view(&self) -> NoteModel {
        NoteModel {
            track: self.track as int,
            channel: self.channel as int,
            key: self.note as int,
            start: self.start as int,
            dur: self.dur as int,
            velocity: self.velocity as int,
        }
    }
}

pub open spec fn opt_string_view(s: Option<String>) -> Option<Seq<char>> {
    match s {
        Some(s) => Some(s@),
        None => None,
    }
}

impl View for TrackInfo {
    type V = TrackInfoModel;

    open spec fn view(&self) -> TrackInfoModel {
        TrackInfoModel { index: self.index as int, name: opt_string_view(self.name) }
    }
}

pub open spec fn notes_view(notes: Seq<Note>) -> Seq<NoteModel> {
    notes.map_values(|n: Note| n@)
}

impl View for MidiData {
    type V = MidiDataModel;

    open spec fn view(&self) -> MidiDataModel {
        MidiDataModel {
            title: opt_string_view(self.title),
            units_per_second: self.units_per_second as int,
            duration: self.duration as int,
            tracks: self.tracks@.map_values(|t: TrackInfo| t@),
            notes: notes_view(self.notes@),
        }
    }
}

// ---------------------------------------------------------------------------
// Lossy UTF-8 decoding of track names

/// What `String::from_utf8_lossy` makes of some bytes.
pub uninterp spec fn utf8_lossy(bytes: Seq<u8>) -> Seq<char>;

/// Calls `String::from_utf8_lossy`. Trusted: the result is the named decoding
/// of the bytes, and, as std documents, valid UTF-8 decodes to its own text.
#[verifier::external_body]
fn decode_name(bytes: &[u8]) -> (s: String)
    ensures
        s@ == utf8_lossy(bytes@),
        vstd::utf8::valid_utf8(bytes@) ==> s@ == vstd::utf8::decode_utf8(bytes@),
{
    String::from_utf8_lossy(bytes).into_owned()
}

// ---------------------------------------------------------------------------
// Absolute ticks and the tempo map

/// Absolute tick of the `n`-th event of a track (counting from 1), the sum of
/// the deltas before and including it.
pub open spec fn tick_after(events: Seq<TrackEventModel>, n: int) -> int
    decreases n,
{
    if n <= 0 {
        0
    } else {
        tick_after(events, n - 1) + events[n - 1].delta
    }
}

/// The tempo map after the first `n` events of a track.
pub open spec fn tempo_after_events(map: Seq<(int, int)>, events: Seq<TrackEventModel>, n: int) -> Seq<(int, int)>
    decreases n,
{
    if n <= 0 {
        map
    } else {
        let m = tempo_after_events(map, events, n - 1);
        match events[n - 1].kind {
            EventKindModel::Tempo(us) => tempo_insert(m, (tick_after(events, n), us as int)),
            _ => m,
        }
    }
}

/// The tempo map built from the first `k` tracks. Set Tempo events of all
/// tracks govern every track; at a tick set twice the first one read wins.
pub open spec fn tempo_after_tracks(tracks: Seq<Seq<TrackEventModel>>, k: int) -> Seq<(int, int)>
    decreases k,
{
    if k <= 0 {
        seq![]
    } else {
        tempo_after_events(tempo_after_tracks(tracks, k - 1), tracks[k - 1], tracks[k - 1].len() as int)
    }
}

/// The tempo map of a file. Timecode files have none.
pub open spec fn file_tempo_map(file: SmfModel) -> Seq<(int, int)> {
    match file.timing {
        Timing::Metrical(_) => tempo_after_tracks(file.tracks, file.tracks.len() as int),
        Timing::Timecode(_, _) => seq![],
    }
}

// ---------------------------------------------------------------------------
// Pairing Note On with Note Off

/// The slot of a (channel, key) pair among the sounding notes.
pub open spec fn slot(channel: int, key: int) -> int {
    channel * 128 + key
}

/// The state of reading one track: per slot the tick and velocity of the
/// note that sounds there, the notes already ended, and the current
/// absolute tick.
pub struct ScanState {
    pub open: Seq<Option<(int, int)>>,
    pub ended: Seq<NoteModel>,
    pub tick: int,
}

pub open spec fn initial_scan() -> ScanState {
    ScanState { open: Seq::new(NOTE_SLOTS as nat, |i: int| None), ended: seq![], tick: 0 }
}

/// A note on `track` from tick `s` to tick `e`, timed by the file's clock.
pub open spec fn timed_note(
    track: int,
    channel: int,
    key: int,
    s: int,
    e: int,
    vel: int,
    timing: Timing,
    map: Seq<(int, int)>,
) -> NoteModel {
    NoteModel {
        track,
        channel,
        key,
        start: time_units(timing, map, s),
        dur: time_units(timing, map, e) - time_units(timing, map, s),
        velocity: vel,
    }
}

/// Ends the note sounding on (channel, key), if any, at the current tick.
pub open spec fn end_note(st: ScanState, track: int, channel: int, key: int, timing: Timing, map: Seq<(int, int)>) -> ScanState {
    match st.open[slot(channel, key)] {
        Some((s, v)) => ScanState {
            open: st.open.update(slot(channel, key), None),
            ended: st.ended.push(timed_note(track, channel, key, s, st.tick, v, timing, map)),
            ..st
        },
        None => st,
    }
}

/// One event of a track. A Note On with velocity 0 is a Note Off; a Note On
/// on a sounding (channel, key) restarts it there.
pub open spec fn scan_step(st: ScanState, e: TrackEventModel, track: int, timing: Timing, map: Seq<(int, int)>) -> ScanState {
    let st1 = ScanState { tick: st.tick + e.delta, ..st };
    match e.kind {
        EventKindModel::NoteOn { channel, key, vel } => if vel == 0 {
            end_note(st1, track, channel as int, key as int, timing, map)
        } else {
            ScanState { open: st1.open.update(slot(channel as int, key as int), Some((st1.tick, vel as int))), ..st1 }
        },
        EventKindModel::NoteOff { channel, key } => end_note(st1, track, channel as int, key as int, timing, map),
        _ => st1,
    }
}

/// The state after the first `n` events of a track.
pub open spec fn scan(events: Seq<TrackEventModel>, n: int, track: int, timing: Timing, map: Seq<(int, int)>) -> ScanState
    decreases n,
{
    if n <= 0 {
        initial_scan()
    } else {
        scan_step(scan(events, n - 1, track, timing, map), events[n - 1], track, timing, map)
    }
}

/// Notes still sounding at the end of a track, closed at its last tick, in
/// slot order (channel, then key), for the slots below `n`.
pub open spec fn hanging(open: Seq<Option<(int, int)>>, n: int, end: int, track: int, timing: Timing, map: Seq<(int, int)>) -> Seq<NoteModel>
    decreases n,
{
    if n <= 0 {
        seq![]
    } else {
        hanging(open, n - 1, end, track, timing, map) + match open[n - 1] {
            Some((s, v)) => seq![timed_note(track, (n - 1) / 128, (n - 1) % 128, s, end, v, timing, map)],
            None => seq![],
        }
    }
}

/// The notes of one track, in the order they end: first those ended by a
/// Note Off, then those left sounding at the end of the track.
pub open spec fn track_notes(events: Seq<TrackEventModel>, track: int, timing: Timing, map: Seq<(int, int)>) -> Seq<NoteModel> {
    let st = scan(events, events.len() as int, track, timing, map);
    st.ended + hanging(st.open, NOTE_SLOTS as int, st.tick, track, timing, map)
}

/// The notes of the first `k` tracks, track after track.
pub open spec fn notes_of_tracks(tracks: Seq<Seq<TrackEventModel>>, k: int, timing: Timing, map: Seq<(int, int)>) -> Seq<NoteModel>
    decreases k,
{
    if k <= 0 {
        seq![]
    } else {
        notes_of_tracks(tracks, k - 1, timing, map) + track_notes(tracks[k - 1], k - 1, timing, map)
    }
}

/// The raw name of a track after its first `n` events: the last Track Name
/// event among them.
pub open spec fn name_after(events: Seq<TrackEventModel>, n: int) -> Option<Seq<u8>>
    decreases n,
{
    if n <= 0 {
        None
    } else {
        match events[n - 1].kind {
            EventKindModel::TrackName(b) => Some(b),
            _ => name_after(events, n - 1),
        }
    }
}

/// The name of a track: its last Track Name event, decoded.
pub open spec fn track_name(events: Seq<TrackEventModel>) -> Option<Seq<char>> {
    match name_after(events, events.len() as int) {
        Some(b) => Some(utf8_lossy(b)),
        None => None,
    }
}


// ---------------------------------------------------------------------------
// Reading one track

/// Every note sounding in a scan state started no later than the current tick.
pub open spec fn starts_before(open: Seq<Option<(int, int)>>, tick: int) -> bool {
    forall|i: int| 0 <= i < open.len() ==> (#[trigger] open[i] matches Some((s, v)) ==> 0 <= s <= tick)
}

pub open spec fn open_view(open: Seq<Option<(u128, u8)>>) -> Seq<Option<(int, int)>> {
    open.map_values(|o: Option<(u128, u8)>| match o {
        Some((s, v)) => Some((s as int, v as int)),
        None => None,
    })
}

/// A note on `track` from tick `s` to tick `e`.
fn make_note(track: usize, channel: u8, key: u8, s: u128, e: u128, vel: u8, timing: Timing, map: &Vec<TempoChange>) -> (n: Note)
    requires
        s <= e <= tick_limit(),
        strictly_sorted(tempo_view(map@)),
    ensures
        n@ == timed_note(track as int, channel as int, key as int, s as int, e as int, vel as int, timing, tempo_view(map@)),
        n.start + n.dur <= end_limit(),
{
    proof {
        lemma_tempo_view_fits(map@);
        if tempo_view(map@).len() > 0 {
            assert(tempo_view(map@)[0].0 >= 0);
        }
        law_time_monotone(timing, tempo_view(map@), s as int, e as int);
    }
    let us = units_at(timing, map, s);
    let ue = units_at(timing, map, e);
    assert(e * 0xFFFF_FFFF <= end_limit()) by (nonlinear_arith)
        requires e <= tick_limit();
    Note { track, channel, note: key, start: us, dur: ue - us, velocity: vel }
}

/// Ends the note sounding on (channel, key), if any, at tick `now`.
fn end_sounding(
    open: &mut Vec<Option<(u128, u8)>>,
    notes: &mut Vec<Note>,
    track: usize,
    channel: u8,
    key: u8,
    now: u128,
    timing: Timing,
    map: &Vec<TempoChange>,
)
    requires
        channel < 16,
        key < 128,
        old(open)@.len() == NOTE_SLOTS,
        starts_before(open_view(old(open)@), now as int),
        now <= tick_limit(),
        strictly_sorted(tempo_view(map@)),
        ends_fit(notes_view(old(notes)@)),
    ensures
        ends_fit(notes_view(final(notes)@)),
        final(open)@.len() == NOTE_SLOTS,
        starts_before(open_view(final(open)@), now as int),
        (match open_view(old(open)@)[slot(channel as int, key as int)] {
            Some((s, v)) => {
                &&& open_view(final(open)@) == open_view(old(open)@).update(slot(channel as int, key as int), None)
                &&& notes_view(final(notes)@) == notes_view(old(notes)@).push(
                    timed_note(track as int, channel as int, key as int, s, now as int, v, timing, tempo_view(map@)),
                )
            },
            None => open_view(final(open)@) == open_view(old(open)@) && notes_view(final(notes)@) == notes_view(old(notes)@),
        }),
{
    let sl = (channel as usize) * 128 + (key as usize);
    let cur = open[sl];
    match cur {
        Some((s, v)) => {
            assert(open_view(open@)[sl as int] == Some((s as int, v as int)));
            let n = make_note(track, channel, key, s, now, v, timing, map);
            let ghost before_open = open@;
            let ghost before_notes = notes@;
            open.set(sl, None);
            notes.push(n);
            assert(open_view(open@) =~= open_view(before_open).update(sl as int, None));
            assert(notes_view(notes@) =~= notes_view(before_notes).push(n@));
        },
        None => {},
    }
}

proof fn lemma_scan_facts(events: Seq<TrackEventModel>, n: int, track: int, timing: Timing, map: Seq<(int, int)>)
    requires
        0 <= n <= events.len(),
        forall|i: int| 0 <= i < events.len() ==> event_in_range(#[trigger] events[i]),
    ensures
        scan(events, n, track, timing, map).tick == tick_after(events, n),
        scan(events, n, track, timing, map).open.len() == NOTE_SLOTS,
    decreases n,
{
    if n > 0 {
        lemma_scan_facts(events, n - 1, track, timing, map);
        let st = scan(events, n - 1, track, timing, map);
        let e = events[n - 1];
        let st1 = ScanState { tick: st.tick + e.delta, ..st };
        assert(event_in_range(e));
        match e.kind {
            EventKindModel::NoteOn { channel, key, vel } => {
                if vel == 0 {
                    assert(end_note(st1, track, channel as int, key as int, timing, map).open.len() == NOTE_SLOTS);
                }
            },
            EventKindModel::NoteOff { channel, key } => {
                assert(end_note(st1, track, channel as int, key as int, timing, map).open.len() == NOTE_SLOTS);
            },
            _ => {},
        }
    } else {
        assert(initial_scan().open.len() == NOTE_SLOTS);
    }
}

/// Reads one track: appends its notes, in the order they end, and returns
/// its name.
fn scan_track(
    events: &Vec<TrackEvent>,
    track: usize,
    timing: Timing,
    map: &Vec<TempoChange>,
    notes: &mut Vec<Note>,
) -> (name: Option<String>)
    requires
        strictly_sorted(tempo_view(map@)),
        forall|i: int| 0 <= i < events@.len() ==> event_in_range(#[trigger] events@[i]@),
        ends_fit(notes_view(old(notes)@)),
    ensures
        ends_fit(notes_view(final(notes)@)),
        notes_view(final(notes)@) == notes_view(old(notes)@) + track_notes(track_view(*events), track as int, timing, tempo_view(map@)),
        opt_string_view(name) == track_name(track_view(*events)),
{
    let ghost ev = track_view(*events);
    let ghost mv = tempo_view(map@);
    let ghost start_notes = notes_view(notes@);
    let mut open: Vec<Option<(u128, u8)>> = Vec::new();
    for k in 0..NOTE_SLOTS
        invariant
            open@.len() == k,
            forall|j: int| 0 <= j < k ==> #[trigger] open@[j] is None,
    {
        open.push(None);
    }
    assert(open_view(open@) =~= initial_scan().open);
    let mut abs: u128 = 0;
    let mut name_at: Option<usize> = None;
    for i in 0..events.len()
        invariant
            ev == track_view(*events),
            mv == tempo_view(map@),
            strictly_sorted(mv),
            forall|j: int| 0 <= j < events@.len() ==> event_in_range(#[trigger] events@[j]@),
            open@.len() == NOTE_SLOTS,
            open_view(open@) == scan(ev, i as int, track as int, timing, mv).open,
            notes_view(notes@) == start_notes + scan(ev, i as int, track as int, timing, mv).ended,
            ends_fit(notes_view(notes@)),
            abs == scan(ev, i as int, track as int, timing, mv).tick,
            abs <= i * 0xFFFF_FFFF,
            starts_before(open_view(open@), abs as int),
            match name_at {
                Some(j) => j < i && events@[j as int].kind is TrackName && name_after(ev, i as int) == Some(ev[j as int].kind->TrackName_0),
                None => name_after(ev, i as int) is None,
            },
    {
        let ghost st = scan(ev, i as int, track as int, timing, mv);
        let e = &events[i];
        assert(ev[i as int] == e@);
        assert(event_in_range(e@));
        assert(i < 0xFFFF_FFFF_FFFF_FFFFint);
        assert(i * 0xFFFF_FFFFint + 0xFFFF_FFFFint <= tick_limit()) by (nonlinear_arith)
            requires 0 <= i < 0xFFFF_FFFF_FFFF_FFFFint;
        abs = abs + e.delta as u128;
        assert(starts_before(open_view(open@), abs as int));
        match &e.kind {
            EventKind::TrackName(_) => {
                name_at = Some(i);
            },
            EventKind::NoteOn { channel, key, vel } => {
                if *vel == 0 {
                    end_sounding(&mut open, notes, track, *channel, *key, abs, timing, map);
                } else {
                    let sl = (*channel as usize) * 128 + (*key as usize);
                    let ghost before = open@;
                    open.set(sl, Some((abs, *vel)));
                    assert(open_view(open@) =~= open_view(before).update(sl as int, Some((abs as int, *vel as int))));
                }
            },
            EventKind::NoteOff { channel, key } => {
                end_sounding(&mut open, notes, track, *channel, *key, abs, timing, map);
            },
            _ => {},
        }
        assert(scan(ev, i + 1, track as int, timing, mv) == scan_step(st, ev[i as int], track as int, timing, mv));
    }
    proof {
        assert forall|i: int| 0 <= i < ev.len() implies event_in_range(#[trigger] ev[i]) by {
            assert(ev[i] == events@[i]@);
        }
        lemma_scan_facts(ev, ev.len() as int, track as int, timing, mv);
    }
    let ghost fin = scan(ev, ev.len() as int, track as int, timing, mv);
    let ghost ended_notes = notes_view(notes@);
    for sl in 0..NOTE_SLOTS
        invariant
            mv == tempo_view(map@),
            strictly_sorted(mv),
            open@.len() == NOTE_SLOTS,
            open_view(open@) == fin.open,
            abs == fin.tick,
            abs <= tick_limit(),
            starts_before(open_view(open@), abs as int),
            notes_view(notes@) == ended_notes + hanging(fin.open, sl as int, abs as int, track as int, timing, mv),
            ends_fit(notes_view(notes@)),
    {
        let cur = open[sl];
        match cur {
            Some((s, v)) => {
                assert(open_view(open@)[sl as int] == Some((s as int, v as int)));
                let n = make_note(track, (sl / 128) as u8, (sl % 128) as u8, s, abs, v, timing, map);
                let ghost before = notes@;
                notes.push(n);
                assert(notes_view(notes@) =~= notes_view(before).push(n@));
            },
            None => {
                assert(open_view(open@)[sl as int] is None);
            },
        }
    }
    match name_at {
        Some(j) => match &events[j].kind {
            EventKind::TrackName(bytes) => Some(decode_name(bytes.as_slice())),
            _ => None,
        },
        None => None,
    }
}


// ---------------------------------------------------------------------------
// The whole file

/// The name of the first track that has one.
pub open spec fn first_name(tracks: Seq<TrackInfoModel>) -> Option<Seq<char>>
    decreases tracks.len(),
{
    if tracks.len() == 0 {
        None
    } else {
        match tracks[0].name {
            Some(n) => Some(n),
            None => first_name(tracks.drop_first()),
        }
    }
}

/// The latest end among the notes, and 0 without notes.
pub open spec fn latest_end(notes: Seq<NoteModel>) -> int
    decreases notes.len(),
{
    if notes.len() == 0 {
        0
    } else {
        let m = latest_end(notes.drop_last());
        let e = notes.last().start + notes.last().dur;
        if e > m {
            e
        } else {
            m
        }
    }
}

/// The timeline of a file: track names in file order, the title, all notes
/// ordered by onset, and the end of the last note.
pub open spec fn timeline(file: SmfModel) -> MidiDataModel {
    let map = file_tempo_map(file);
    let n = file.tracks.len() as int;
    let tracks = Seq::new(n as nat, |k: int| TrackInfoModel { index: k, name: track_name(file.tracks[k]) });
    let notes = sort_by_start(notes_of_tracks(file.tracks, n, file.timing, map));
    MidiDataModel {
        title: first_name(tracks),
        units_per_second: units_per_second(file.timing),
        duration: latest_end(notes),
        tracks,
        notes,
    }
}

/// Largest end of a note: the time of the largest tick at the slowest tempo.
pub open spec fn end_limit() -> int {
    tick_limit() * 0xFFFF_FFFF
}

pub open spec fn ends_fit(notes: Seq<NoteModel>) -> bool {
    forall|i: int| 0 <= i < notes.len() ==> 0 <= #[trigger] notes[i].start && 0 <= notes[i].dur && notes[i].start + notes[i].dur <= end_limit()
}

/// Builds the tempo map from the Set Tempo events of all tracks.
fn build_tempo_map(file: &SmfFile) -> (map: Vec<TempoChange>)
    ensures
        tempo_view(map@) == tempo_after_tracks(file@.tracks, file@.tracks.len() as int),
        strictly_sorted(tempo_view(map@)),
{
    let ghost tracks = file@.tracks;
    let mut map: Vec<TempoChange> = Vec::new();
    assert(tempo_view(map@) =~= seq![]);
    for k in 0..file.tracks.len()
        invariant
            tracks == file@.tracks,
            tempo_view(map@) == tempo_after_tracks(tracks, k as int),
            strictly_sorted(tempo_view(map@)),
    {
        let events = &file.tracks[k];
        let ghost ev = track_view(*events);
        assert(ev == tracks[k as int]);
        let mut abs: u128 = 0;
        for i in 0..events.len()
            invariant
                ev == track_view(*events),
                tempo_view(map@) == tempo_after_events(tempo_after_tracks(tracks, k as int), ev, i as int),
                strictly_sorted(tempo_view(map@)),
                abs == tick_after(ev, i as int),
                abs <= i * 0xFFFF_FFFF,
        {
            let e = &events[i];
            assert(ev[i as int] == e@);
            assert(i < 0xFFFF_FFFF_FFFF_FFFFint);
            assert(i * 0xFFFF_FFFFint + 0xFFFF_FFFFint <= tick_limit()) by (nonlinear_arith)
                requires 0 <= i < 0xFFFF_FFFF_FFFF_FFFFint;
            abs = abs + e.delta as u128;
            match &e.kind {
                EventKind::Tempo(us) => {
                    insert_tempo(&mut map, TempoChange { tick: abs, us_per_quarter: *us });
                },
                _ => {},
            }
        }
    }
    map
}

/// The notes of all tracks, track after track, with the track names.
fn read_tracks(file: &SmfFile, map: &Vec<TempoChange>) -> (r: (Vec<Note>, Vec<TrackInfo>))
    requires
        file_in_range(file@),
        strictly_sorted(tempo_view(map@)),
    ensures
        notes_view(r.0@) == notes_of_tracks(file@.tracks, file@.tracks.len() as int, file.timing, tempo_view(map@)),
        ends_fit(notes_view(r.0@)),
        r.1@.map_values(|t: TrackInfo| t@) == Seq::new(
            file@.tracks.len(),
            |k: int| (TrackInfoModel { index: k, name: track_name(file@.tracks[k]) }),
        ),
{
    let ghost tracks = file@.tracks;
    let ghost mv = tempo_view(map@);
    let mut notes: Vec<Note> = Vec::new();
    let mut infos: Vec<TrackInfo> = Vec::new();
    assert(notes_view(notes@) =~= seq![]);
    for k in 0..file.tracks.len()
        invariant
            tracks == file@.tracks,
            mv == tempo_view(map@),
            file_in_range(file@),
            strictly_sorted(mv),
            notes_view(notes@) == notes_of_tracks(tracks, k as int, file.timing, mv),
            ends_fit(notes_view(notes@)),
            infos@.len() == k,
            forall|j: int| 0 <= j < k ==> #[trigger] infos@[j]@ == (TrackInfoModel { index: j, name: track_name(tracks[j]) }),
    {
        let events = &file.tracks[k];
        assert(track_view(*events) == tracks[k as int]);
        assert forall|i: int| 0 <= i < events@.len() implies event_in_range(#[trigger] events@[i]@) by {
            assert(track_view(*events)[i] == events@[i]@);
        }
        let name = scan_track(events, k, file.timing, map, &mut notes);
        infos.push(TrackInfo { index: k, name });
    }
    let ghost want = Seq::new(tracks.len(), |k: int| TrackInfoModel { index: k, name: track_name(tracks[k]) });
    assert(infos@.map_values(|t: TrackInfo| t@) =~= want);
    (notes, infos)
}


/// The end of the note that ends last, 0 without notes.
fn latest_end_of(notes: &Vec<Note>) -> (m: u128)
    requires
        ends_fit(notes_view(notes@)),
    ensures
        m == latest_end(notes_view(notes@)),
{
    let ghost all = notes_view(notes@);
    let mut m: u128 = 0;
    for i in 0..notes.len()
        invariant
            all == notes_view(notes@),
            ends_fit(all),
            m == latest_end(all.take(i as int)),
    {
        let n = notes[i];
        assert(all[i as int] == n@);
        assert(all[i as int].start + all[i as int].dur <= end_limit());
        assert(end_limit() <= u128::MAX);
        assert(all.take(i + 1).drop_last() =~= all.take(i as int));
        let e = n.start + n.dur;
        if e > m {
            m = e;
        }
    }
    assert(all.take(notes@.len() as int) =~= all);
    m
}

/// The name of the first track that has one.
fn first_track_name(tracks: &Vec<TrackInfo>) -> (title: Option<String>)
    ensures
        opt_string_view(title) == first_name(tracks@.map_values(|t: TrackInfo| t@)),
{
    let ghost all = tracks@.map_values(|t: TrackInfo| t@);
    assert(all.skip(0) =~= all);
    let mut i: usize = 0;
    while i < tracks.len()
        invariant
            0 <= i <= tracks@.len(),
            all == tracks@.map_values(|t: TrackInfo| t@),
            first_name(all) == first_name(all.skip(i as int)),
        decreases tracks@.len() - i,
    {
        assert(all.skip(i as int)[0] == tracks@[i as int]@);
        assert(all.skip(i as int).drop_first() =~= all.skip(i + 1));
        match &tracks[i].name {
            Some(name) => {
                return Some(name.clone());
            },
            None => {},
        }
        i = i + 1;
    }
    assert(all.skip(i as int).len() == 0);
    None
}

/// The timeline of a file read into the library's model.
pub fn midi_data_from_file(file: &SmfFile) -> (d: MidiData)
    requires
        file_in_range(file@),
    ensures
        d@ == timeline(file@),
{
    let map = match file.timing {
        Timing::Metrical(_) => build_tempo_map(file),
        Timing::Timecode(_, _) => Vec::new(),
    };
    assert(tempo_view(map@) == file_tempo_map(file@)) by {
        if file.timing is Timecode {
            assert(tempo_view(map@) =~= seq![]);
        }
    }
    let (notes, tracks) = read_tracks(file, &map);
    let sorted = sort_notes(&notes);
    proof {
        let p = |n: NoteModel| 0 <= n.start && 0 <= n.dur && n.start + n.dur <= end_limit();
        assert forall|i: int| 0 <= i < notes_view(notes@).len() implies #[trigger] p(notes_view(notes@)[i]) by {}
        law_sort_keeps_each(notes_view(notes@), p);
        assert forall|i: int| 0 <= i < notes_view(sorted@).len() implies 0 <= #[trigger] notes_view(sorted@)[i].start
            && 0 <= notes_view(sorted@)[i].dur && notes_view(sorted@)[i].start + notes_view(sorted@)[i].dur <= end_limit() by {
            assert(p(notes_view(sorted@)[i]));
        }
    }
    let duration = latest_end_of(&sorted);
    let title = first_track_name(&tracks);
    let d = MidiData { title, units_per_second: units_per_second_of(file.timing), duration, tracks, notes: sorted };
    assert(d@.tracks == timeline(file@).tracks);
    d
}

/// Reads the bytes of a Standard MIDI File into its note timeline.
///
/// Decoding is done by `midly`; where it refuses the bytes the error reads
/// "invalid MIDI: " and midly's description of the fault.
pub fn parse_midi(bytes: &[u8]) -> (r: Result<MidiData, String>)
    ensures
        r is Ok <==> midly_parse(bytes@) is Ok,
        r matches Ok(d) ==> d@ == timeline(midly_parse(bytes@)->Ok_0),
        r matches Err(msg) ==> msg@ == "invalid MIDI: "@ + midly_parse(bytes@)->Err_0,
{
    match smf_parse(bytes) {
        Ok(smf) => {
            let file = read_smf(&smf);
            Ok(midi_data_from_file(&file))
        },
        Err(e) => {
            let detail = midly_error_text(&e);
            let msg = String::from_str("invalid MIDI: ").concat(detail.as_str());
            proof {
                reveal_strlit("invalid MIDI: ");
            }
            Err(msg)
        },
    }
}


// ---------------------------------------------------------------------------
// Laws of the timeline

/// The event with a Note On of velocity 0 written as the Note Off it means.
pub open spec fn as_note_off(e: TrackEventModel) -> TrackEventModel {
    match e.kind {
        EventKindModel::NoteOn { channel, key, vel } => if vel == 0 {
            TrackEventModel { delta: e.delta, kind: EventKindModel::NoteOff { channel, key } }
        } else {
            e
        },
        _ => e,
    }
}

/// The file with every Note On of velocity 0 written as a Note Off.
pub open spec fn with_note_offs(file: SmfModel) -> SmfModel {
    SmfModel {
        timing: file.timing,
        tracks: file.tracks.map_values(|t: Seq<TrackEventModel>| t.map_values(|e: TrackEventModel| as_note_off(e))),
    }
}

proof fn lemma_note_off_track(events: Seq<TrackEventModel>, n: int, track: int, timing: Timing, map: Seq<(int, int)>)
    requires
        0 <= n <= events.len(),
    ensures
        scan(events, n, track, timing, map) == scan(events.map_values(|e: TrackEventModel| as_note_off(e)), n, track, timing, map),
        tick_after(events, n) == tick_after(events.map_values(|e: TrackEventModel| as_note_off(e)), n),
        name_after(events, n) == name_after(events.map_values(|e: TrackEventModel| as_note_off(e)), n),
        forall|m: Seq<(int, int)>| #[trigger] tempo_after_events(m, events, n)
            == tempo_after_events(m, events.map_values(|e: TrackEventModel| as_note_off(e)), n),
    decreases n,
{
    let other = events.map_values(|e: TrackEventModel| as_note_off(e));
    if n > 0 {
        lemma_note_off_track(events, n - 1, track, timing, map);
        assert(other[n - 1] == as_note_off(events[n - 1]));
        assert forall|m: Seq<(int, int)>| #[trigger] tempo_after_events(m, events, n)
            == tempo_after_events(m, other, n) by {
            assert(tempo_after_events(m, events, n - 1) == tempo_after_events(m, other, n - 1));
        }
    }
}

proof fn lemma_note_off_tracks(file: SmfModel, k: int)
    requires
        0 <= k <= file.tracks.len(),
    ensures
        notes_of_tracks(file.tracks, k, file.timing, file_tempo_map(file))
            == notes_of_tracks(with_note_offs(file).tracks, k, file.timing, file_tempo_map(file)),
        tempo_after_tracks(file.tracks, k) == tempo_after_tracks(with_note_offs(file).tracks, k),
    decreases k,
{
    if k > 0 {
        lemma_note_off_tracks(file, k - 1);
        let t = file.tracks[k - 1];
        assert(with_note_offs(file).tracks[k - 1] == t.map_values(|e: TrackEventModel| as_note_off(e)));
        lemma_note_off_track(t, t.len() as int, k - 1, file.timing, file_tempo_map(file));
        let m = tempo_after_tracks(file.tracks, k - 1);
        assert(tempo_after_events(m, t, t.len() as int)
            == tempo_after_events(m, t.map_values(|e: TrackEventModel| as_note_off(e)), t.len() as int));
    }
}

/// Law: a Note On with velocity 0 is a Note Off. Writing every such event as
/// a Note Off leaves the timeline as it is.
pub proof fn law_velocity_zero_is_note_off(file: SmfModel)
    ensures
        timeline(with_note_offs(file)) == timeline(file),
{
    let other = with_note_offs(file);
    let n = file.tracks.len() as int;
    lemma_note_off_tracks(file, n);
    assert(file_tempo_map(other) == file_tempo_map(file));
    let t1 = Seq::new(n as nat, |k: int| TrackInfoModel { index: k, name: track_name(file.tracks[k]) });
    let t2 = Seq::new(n as nat, |k: int| TrackInfoModel { index: k, name: track_name(other.tracks[k]) });
    assert forall|k: int| 0 <= k < n implies #[trigger] t1[k] == t2[k] by {
        let t = file.tracks[k];
        assert(other.tracks[k] == t.map_values(|e: TrackEventModel| as_note_off(e)));
        lemma_note_off_track(t, t.len() as int, k, file.timing, file_tempo_map(file));
    }
    assert(t1 =~= t2);
}

/// Law: the notes of the timeline are ordered by onset, and they are exactly
/// the notes read from the tracks, none lost and none added.
pub proof fn law_timeline_notes_ordered(file: SmfModel)
    ensures
        sorted_by_start(timeline(file).notes),
        timeline(file).notes.to_multiset()
            == notes_of_tracks(file.tracks, file.tracks.len() as int, file.timing, file_tempo_map(file)).to_multiset(),
{
    let all = notes_of_tracks(file.tracks, file.tracks.len() as int, file.timing, file_tempo_map(file));
    law_sort_orders(all);
    law_sort_permutes(all);
}

proof fn lemma_latest_end(notes: Seq<NoteModel>)
    ensures
        latest_end(notes) >= 0,
        forall|i: int| 0 <= i < notes.len() ==> #[trigger] notes[i].start + notes[i].dur <= latest_end(notes),
        notes.len() > 0 && latest_end(notes) > 0 ==> exists|i: int| 0 <= i < notes.len()
            && #[trigger] notes[i].start + notes[i].dur == latest_end(notes),
    decreases notes.len(),
{
    if notes.len() > 0 {
        let init = notes.drop_last();
        lemma_latest_end(init);
        assert forall|i: int| 0 <= i < notes.len() implies #[trigger] notes[i].start + notes[i].dur <= latest_end(notes) by {
            if i < notes.len() - 1 {
                assert(notes[i] == init[i]);
            }
        }
        if latest_end(notes) > 0 {
            if latest_end(notes) == latest_end(init) && latest_end(init) != notes.last().start + notes.last().dur {
                let i = choose|i: int| 0 <= i < init.len() && #[trigger] init[i].start + init[i].dur == latest_end(init);
                assert(notes[i] == init[i]);
            } else {
                assert(notes[notes.len() - 1] == notes.last());
            }
        }
    }
}

/// Law: the duration of the timeline is the end of the note that ends last:
/// no note ends after it, and where it is not 0 some note ends exactly then.
pub proof fn law_duration_is_last_end(file: SmfModel)
    ensures
        timeline(file).duration >= 0,
        forall|i: int| 0 <= i < timeline(file).notes.len() ==>
            #[trigger] timeline(file).notes[i].start + timeline(file).notes[i].dur <= timeline(file).duration,
        timeline(file).duration > 0 ==> exists|i: int| 0 <= i < timeline(file).notes.len()
            && #[trigger] timeline(file).notes[i].start + timeline(file).notes[i].dur == timeline(file).duration,
{
    lemma_latest_end(timeline(file).notes);
}


proof fn lemma_tempo_events_sorted(map: Seq<(int, int)>, events: Seq<TrackEventModel>, n: int)
    requires
        strictly_sorted(map),
    ensures
        strictly_sorted(tempo_after_events(map, events, n)),
    decreases n,
{
    if n > 0 {
        lemma_tempo_events_sorted(map, events, n - 1);
        let m = tempo_after_events(map, events, n - 1);
        if let EventKindModel::Tempo(us) = events[n - 1].kind {
            law_tempo_insert_sorted(m, (tick_after(events, n), us as int));
        }
    }
}

proof fn lemma_tempo_tracks_sorted(tracks: Seq<Seq<TrackEventModel>>, k: int)
    ensures
        strictly_sorted(tempo_after_tracks(tracks, k)),
    decreases k,
{
    if k > 0 {
        lemma_tempo_tracks_sorted(tracks, k - 1);
        lemma_tempo_events_sorted(tempo_after_tracks(tracks, k - 1), tracks[k - 1], tracks[k - 1].len() as int);
    }
}

/// Law: the tempo map of every file is ordered by tick, one entry per tick,
/// so the time of a tick is well defined.
pub proof fn law_tempo_map_sorted(file: SmfModel)
    ensures
        strictly_sorted(file_tempo_map(file)),
{
    lemma_tempo_tracks_sorted(file.tracks, file.tracks.len() as int);
}

/// The note sounding on `channel` and `key` after the first `n` events of a
/// track: the tick and velocity of the last Note On there, unless a Note Off
/// (or a Note On with velocity 0) on the same channel and key came after it.
pub open spec fn sounding(events: Seq<TrackEventModel>, n: int, channel: int, key: int) -> Option<(int, int)>
    decreases n,
{
    if n <= 0 {
        None
    } else {
        match events[n - 1].kind {
            EventKindModel::NoteOn { channel: c, key: k, vel } => if c == channel && k == key {
                if vel == 0 {
                    None
                } else {
                    Some((tick_after(events, n), vel as int))
                }
            } else {
                sounding(events, n - 1, channel, key)
            },
            EventKindModel::NoteOff { channel: c, key: k } => if c == channel && k == key {
                None
            } else {
                sounding(events, n - 1, channel, key)
            },
            _ => sounding(events, n - 1, channel, key),
        }
    }
}

/// The note that the event at index `n` ends on `channel` and `key`: the one
/// sounding there, closed at the event's tick, if any.
pub open spec fn closed_at(
    events: Seq<TrackEventModel>,
    n: int,
    channel: int,
    key: int,
    track: int,
    timing: Timing,
    map: Seq<(int, int)>,
) -> Seq<NoteModel> {
    match sounding(events, n, channel, key) {
        Some((s, v)) => seq![timed_note(track, channel, key, s, tick_after(events, n + 1), v, timing, map)],
        None => seq![],
    }
}

/// The notes the event at index `n` ends: a Note Off, or a Note On with
/// velocity 0, ends the note on its own channel and key; other events end
/// none.
pub open spec fn closed_by(events: Seq<TrackEventModel>, n: int, track: int, timing: Timing, map: Seq<(int, int)>) -> Seq<
    NoteModel,
> {
    match events[n].kind {
        EventKindModel::NoteOn { channel, key, vel } => if vel == 0 {
            closed_at(events, n, channel as int, key as int, track, timing, map)
        } else {
            seq![]
        },
        EventKindModel::NoteOff { channel, key } => closed_at(events, n, channel as int, key as int, track, timing, map),
        _ => seq![],
    }
}

/// Law: while a track is read, the note held for each channel and key is the
/// one sounding there: notes on the same key on different channels, or on
/// different keys of one channel, never share a place.
pub proof fn law_each_channel_and_key_holds_its_own_note(
    events: Seq<TrackEventModel>,
    n: int,
    track: int,
    timing: Timing,
    map: Seq<(int, int)>,
)
    requires
        0 <= n <= events.len(),
        forall|i: int| 0 <= i < events.len() ==> event_in_range(#[trigger] events[i]),
    ensures
        forall|c: int, k: int|
            0 <= c < 16 && 0 <= k < 128 ==> #[trigger] scan(events, n, track, timing, map).open[slot(c, k)] == sounding(
                events,
                n,
                c,
                k,
            ),
    decreases n,
{
    lemma_scan_facts(events, n, track, timing, map);
    if n > 0 {
        law_each_channel_and_key_holds_its_own_note(events, n - 1, track, timing, map);
        lemma_scan_facts(events, n - 1, track, timing, map);
        let st = scan(events, n - 1, track, timing, map);
        let e = events[n - 1];
        assert(event_in_range(e));
        assert forall|c: int, k: int|
            0 <= c < 16 && 0 <= k < 128 implies #[trigger] scan(events, n, track, timing, map).open[slot(c, k)]
            == sounding(events, n, c, k) by {
            assert(st.open[slot(c, k)] == sounding(events, n - 1, c, k));
            match e.kind {
                EventKindModel::NoteOn { channel, key, vel } => {
                    if channel as int != c || key as int != k {
                        assert(slot(channel as int, key as int) != slot(c, k));
                    }
                },
                EventKindModel::NoteOff { channel, key } => {
                    if channel as int != c || key as int != k {
                        assert(slot(channel as int, key as int) != slot(c, k));
                    }
                },
                _ => {},
            }
        }
    }
}

/// Law: each event of a track adds to the ended notes exactly the notes it
/// ends: a Note Off (or a Note On with velocity 0) on channel `c` and key `k`
/// ends only the note sounding on that same channel and key, which carries
/// the channel, key, onset and velocity of its own Note On; any other event
/// ends nothing.
pub proof fn law_note_off_ends_its_own_channel_and_key(
    events: Seq<TrackEventModel>,
    n: int,
    track: int,
    timing: Timing,
    map: Seq<(int, int)>,
)
    requires
        0 <= n < events.len(),
        forall|i: int| 0 <= i < events.len() ==> event_in_range(#[trigger] events[i]),
    ensures
        scan(events, n + 1, track, timing, map).ended == scan(events, n, track, timing, map).ended + closed_by(
            events,
            n,
            track,
            timing,
            map,
        ),
{
    law_each_channel_and_key_holds_its_own_note(events, n, track, timing, map);
    lemma_scan_facts(events, n, track, timing, map);
    lemma_scan_facts(events, n + 1, track, timing, map);
    let st = scan(events, n, track, timing, map);
    let e = events[n];
    assert(event_in_range(e));
    match e.kind {
        EventKindModel::NoteOn { channel, key, vel } => {
            assert(st.open[slot(channel as int, key as int)] == sounding(events, n, channel as int, key as int));
            if vel != 0 {
                assert(scan(events, n + 1, track, timing, map).ended =~= st.ended + seq![]);
            }
        },
        EventKindModel::NoteOff { channel, key } => {
            assert(st.open[slot(channel as int, key as int)] == sounding(events, n, channel as int, key as int));
        },
        _ => {
            assert(scan(events, n + 1, track, timing, map).ended =~= st.ended + seq![]);
        },
    }
}

/// The notes still sounding after the last event of a track, closed at its
/// last tick, for the first `m` (channel, key) pairs taken channel by
/// channel, key by key.
pub open spec fn left_sounding(events: Seq<TrackEventModel>, m: int, track: int, timing: Timing, map: Seq<(int, int)>) -> Seq<
    NoteModel,
>
    decreases m,
{
    if m <= 0 {
        seq![]
    } else {
        let c = (m - 1) / 128;
        let k = (m - 1) % 128;
        left_sounding(events, m - 1, track, timing, map) + match sounding(events, events.len() as int, c, k) {
            Some((s, v)) => seq![timed_note(track, c, k, s, tick_after(events, events.len() as int), v, timing, map)],
            None => seq![],
        }
    }
}

proof fn lemma_hanging_is_left_sounding(
    events: Seq<TrackEventModel>,
    m: int,
    track: int,
    timing: Timing,
    map: Seq<(int, int)>,
)
    requires
        0 <= m <= NOTE_SLOTS,
        forall|i: int| 0 <= i < events.len() ==> event_in_range(#[trigger] events[i]),
    ensures
        hanging(
            scan(events, events.len() as int, track, timing, map).open,
            m,
            scan(events, events.len() as int, track, timing, map).tick,
            track,
            timing,
            map,
        ) == left_sounding(events, m, track, timing, map),
    decreases m,
{
    if m > 0 {
        lemma_hanging_is_left_sounding(events, m - 1, track, timing, map);
        law_each_channel_and_key_holds_its_own_note(events, events.len() as int, track, timing, map);
        lemma_scan_facts(events, events.len() as int, track, timing, map);
        let c = (m - 1) / 128;
        let k = (m - 1) % 128;
        assert(slot(c, k) == m - 1);
        assert(scan(events, events.len() as int, track, timing, map).open[slot(c, k)] == sounding(
            events,
            events.len() as int,
            c,
            k,
        ));
    }
}

/// The notes ended by the first `n` events of a track, in the order they end.
pub open spec fn ended_by(events: Seq<TrackEventModel>, n: int, track: int, timing: Timing, map: Seq<(int, int)>) -> Seq<
    NoteModel,
>
    decreases n,
{
    if n <= 0 {
        seq![]
    } else {
        ended_by(events, n - 1, track, timing, map) + closed_by(events, n - 1, track, timing, map)
    }
}

proof fn lemma_ended_by(events: Seq<TrackEventModel>, n: int, track: int, timing: Timing, map: Seq<(int, int)>)
    requires
        0 <= n <= events.len(),
        forall|i: int| 0 <= i < events.len() ==> event_in_range(#[trigger] events[i]),
    ensures
        scan(events, n, track, timing, map).ended == ended_by(events, n, track, timing, map),
    decreases n,
{
    if n > 0 {
        lemma_ended_by(events, n - 1, track, timing, map);
        law_note_off_ends_its_own_channel_and_key(events, n - 1, track, timing, map);
    }
}

/// Law: the notes of a track are the notes its events end, in the order
/// they end (each Note Off, or Note On with velocity 0, ending the note
/// sounding on its own channel and key), followed by one note for each
/// channel and key still sounding after its last event (channel by channel,
/// key by key), closed at its last tick.
pub proof fn law_track_notes_are_ended_then_sounding(
    events: Seq<TrackEventModel>,
    track: int,
    timing: Timing,
    map: Seq<(int, int)>,
)
    requires
        forall|i: int| 0 <= i < events.len() ==> event_in_range(#[trigger] events[i]),
    ensures
        track_notes(events, track, timing, map) == ended_by(events, events.len() as int, track, timing, map)
            + left_sounding(events, NOTE_SLOTS as int, track, timing, map),
{
    lemma_hanging_is_left_sounding(events, NOTE_SLOTS as int, track, timing, map);
    lemma_ended_by(events, events.len() as int, track, timing, map);
}

} // verus!
