//! The Standard MIDI File as the player reads it: timing, and per track the
//! events that matter for the note timeline. Decoding the bytes is done by
//! `midly`; this module holds the plain model and the trusted items around it.

use vstd::prelude::*;
use midly::{MetaMessage, MidiMessage, TrackEventKind};

verus! {

/// Frame rates of SMPTE timecode.
#[derive(Clone, Copy, Debug, PartialEq, Eq, Structural)]
pub enum Fps {
    Fps24,
    Fps25,
    /// 30 / 1.001 frames per second.
    Fps29,
    Fps30,
}

/// How ticks relate to time in a file.
#[derive(Clone, Copy, Debug, PartialEq, Eq, Structural)]
pub enum Timing {
    /// Ticks per quarter note; the tempo map gives the length of a quarter.
    Metrical(u16),
    /// Frames per second and ticks per frame.
    Timecode(Fps, u8),
}

/// The events of a track that the timeline is built from.
#[derive(Clone, Debug)]
pub enum EventKind {
    NoteOn { channel: u8, key: u8, vel: u8 },
    NoteOff { channel: u8, key: u8 },
    /// Set Tempo: microseconds per quarter note.
    Tempo(u32),
    /// Raw bytes of a Track Name meta event.
    TrackName(Vec<u8>),
    /// Any other event; only its delta time counts.
    Other,
}

#[derive(Clone, Debug)]
pub struct TrackEvent {
    /// Ticks since the previous event of the same track.
    pub delta: u32,
    pub kind: EventKind,
}

/// A parsed file: its timing and its tracks.
#[derive(Clone, Debug)]
pub struct SmfFile {
    pub timing: Timing,
    pub tracks: Vec<Vec<TrackEvent>>,
}

pub enum EventKindModel {
    NoteOn { channel: u8, key: u8, vel: u8 },
    NoteOff { channel: u8, key: u8 },
    Tempo(u32),
    TrackName(Seq<u8>),
    Other,
}

pub struct TrackEventModel {
    pub delta: u32,
    pub kind: EventKindModel,
}

pub struct SmfModel {
    pub timing: Timing,
    pub tracks: Seq<Seq<TrackEventModel>>,
}

impl View for EventKind {
    type V = EventKindModel;

    open spec fn view(&self) -> EventKindModel {
        match self {
            EventKind::NoteOn { channel, key, vel } => EventKindModel::NoteOn { channel: *channel, key: *key, vel: *vel },
            EventKind::NoteOff { channel, key } => EventKindModel::NoteOff { channel: *channel, key: *key },
            EventKind::Tempo(us) => EventKindModel::Tempo(*us),
            EventKind::TrackName(bytes) => EventKindModel::TrackName(bytes@),
            EventKind::Other => EventKindModel::Other,
        }
    }
}

impl View for TrackEvent {
    type V = TrackEventModel;

    open spec fn view(&self) -> TrackEventModel {
        TrackEventModel { delta: self.delta, kind: self.kind@ }
    }
}

pub open spec fn track_view(track: Vec<TrackEvent>) -> Seq<TrackEventModel> {
    track@.map_values(|e: TrackEvent| e@)
}

impl View for SmfFile {
    type V = SmfModel;

    open spec fn view(&self) -> SmfModel {
        SmfModel { timing: self.timing, tracks: self.tracks@.map_values(|t: Vec<TrackEvent>| track_view(t)) }
    }
}

#[verifier::external_type_specification]
#[verifier::external_body]
pub struct ExSmf<'a>(midly::Smf<'a>);

#[verifier::external_type_specification]
#[verifier::external_body]
pub struct ExMidlyError(midly::Error);

/// What `midly::Smf::parse` makes of the bytes of a file: the file it reads,
/// or, where it refuses them, the text its error displays.
pub uninterp spec fn midly_parse(bytes: Seq<u8>) -> Result<SmfModel, Seq<char>>;

/// The text a `midly::Error` displays.
pub uninterp spec fn midly_error_display(e: midly::Error) -> Seq<char>;

/// The timing and the events that a parsed `midly::Smf` holds.
pub uninterp spec fn smf_contents(smf: midly::Smf) -> SmfModel;

/// Calls `midly::Smf::parse`. Trusted: it succeeds exactly where the named
/// parse result is `Ok`; the value it returns holds that result, and the
/// error it returns displays the named text.
#[verifier::external_body]
pub(crate) fn smf_parse(bytes: &[u8]) -> (r: Result<midly::Smf<'_>, midly::Error>)
    ensures
        r is Ok <==> midly_parse(bytes@) is Ok,
        r matches Ok(smf) ==> midly_parse(bytes@)->Ok_0 == smf_contents(smf),
        r matches Err(e) ==> midly_parse(bytes@)->Err_0 == midly_error_display(e),
{
    midly::Smf::parse(bytes)
}


/// Calls `Display::to_string` on a midly error: the text of its kind
/// ("invalid midi: ..." or "malformed midi: ...").
#[verifier::external_body]
pub(crate) fn midly_error_text(e: &midly::Error) -> (s: String)
    ensures
        s@ == midly_error_display(*e),
{
    e.to_string()
}

/// Calls `header.timing` of a parsed `midly::Smf`, one variant for one.
#[verifier::external_body]
fn smf_timing(smf: &midly::Smf) -> (r: Timing)
    ensures
        r == smf_contents(*smf).timing,
{
    match smf.header.timing {
        midly::Timing::Metrical(tpb) => Timing::Metrical(tpb.as_int()),
        midly::Timing::Timecode(fps, sub) => Timing::Timecode(match fps {
            midly::Fps::Fps24 => Fps::Fps24,
            midly::Fps::Fps25 => Fps::Fps25,
            midly::Fps::Fps29 => Fps::Fps29,
            midly::Fps::Fps30 => Fps::Fps30,
        }, sub),
    }
}

/// Calls `len` on the tracks of a parsed `midly::Smf`.
#[verifier::external_body]
fn smf_track_count(smf: &midly::Smf) -> (r: usize)
    ensures
        r == smf_contents(*smf).tracks.len(),
{
    smf.tracks.len()
}

/// Calls `len` on one track of a parsed `midly::Smf`.
#[verifier::external_body]
fn smf_track_len(smf: &midly::Smf, track: usize) -> (r: usize)
    requires
        track < smf_contents(*smf).tracks.len(),
    ensures
        r == smf_contents(*smf).tracks[track as int].len(),
{
    smf.tracks[track].len()
}

/// Reads one `midly::TrackEvent` of a parsed file into the plain model. The
/// bounds come from midly's types: channels are `u4`, keys and velocities `u7`.
#[verifier::external_body]
fn smf_event(smf: &midly::Smf, track: usize, index: usize) -> (r: TrackEvent)
    requires
        track < smf_contents(*smf).tracks.len(),
        index < smf_contents(*smf).tracks[track as int].len(),
    ensures
        r@ == smf_contents(*smf).tracks[track as int][index as int],
        event_in_range(r@),
{
    let ev = &smf.tracks[track][index];
    let kind = match ev.kind {
        TrackEventKind::Midi { channel, message: MidiMessage::NoteOn { key, vel } } =>
            EventKind::NoteOn { channel: channel.as_int(), key: key.as_int(), vel: vel.as_int() },
        TrackEventKind::Midi { channel, message: MidiMessage::NoteOff { key, .. } } =>
            EventKind::NoteOff { channel: channel.as_int(), key: key.as_int() },
        TrackEventKind::Meta(MetaMessage::Tempo(us)) => EventKind::Tempo(us.as_int()),
        TrackEventKind::Meta(MetaMessage::TrackName(name)) => EventKind::TrackName(name.to_vec()),
        _ => EventKind::Other,
    };
    TrackEvent { delta: ev.delta.as_int(), kind }
}

/// Channels fit in four bits, keys and velocities in seven.
pub open spec fn event_in_range(e: TrackEventModel) -> bool {
    match e.kind {
        EventKindModel::NoteOn { channel, key, vel } => channel < 16 && key < 128 && vel < 128,
        EventKindModel::NoteOff { channel, key } => channel < 16 && key < 128,
        _ => true,
    }
}

/// Every event of the file is in range.
pub open spec fn file_in_range(m: SmfModel) -> bool {
    forall|t: int, i: int|
        0 <= t < m.tracks.len() && 0 <= i < m.tracks[t].len() ==> #[trigger] event_in_range(m.tracks[t][i])
}

/// Copies a parsed `midly::Smf` into the library's own model, event by event.
pub(crate) fn read_smf(smf: &midly::Smf) -> (file: SmfFile)
    ensures
        file@ == smf_contents(*smf),
        file_in_range(file@),
{
    let timing = smf_timing(smf);
    let n = smf_track_count(smf);
    let ghost contents = smf_contents(*smf);
    let mut tracks: Vec<Vec<TrackEvent>> = Vec::new();
    for t in 0..n
        invariant
            n == contents.tracks.len(),
            contents == smf_contents(*smf),
            tracks@.len() == t,
            forall|k: int| 0 <= k < t ==> #[trigger] track_view(tracks@[k]) == contents.tracks[k],
            forall|k: int, i: int|
                0 <= k < t && 0 <= i < tracks@[k]@.len() ==> event_in_range(#[trigger] tracks@[k]@[i]@),
    {
        let len = smf_track_len(smf, t);
        let mut events: Vec<TrackEvent> = Vec::new();
        for i in 0..len
            invariant
                n == contents.tracks.len(),
                contents == smf_contents(*smf),
                t < n,
                len == contents.tracks[t as int].len(),
                events@.len() == i,
                forall|j: int| 0 <= j < i ==> #[trigger] events@[j]@ == contents.tracks[t as int][j],
                forall|j: int| 0 <= j < i ==> event_in_range(#[trigger] events@[j]@),
        {
            let ev = smf_event(smf, t, i);
            events.push(ev);
        }
        assert(track_view(events) =~= contents.tracks[t as int]);
        tracks.push(events);
    }
    let file = SmfFile { timing, tracks };
    assert(file@.tracks =~= contents.tracks);
    assert forall|k: int, i: int|
        0 <= k < file@.tracks.len() && 0 <= i < file@.tracks[k].len() implies #[trigger] event_in_range(file@.tracks[k][i]) by {
        assert(file@.tracks[k] == track_view(tracks@[k]));
        assert(file@.tracks[k][i] == tracks@[k]@[i]@);
    }
    file
}

} // verus!
