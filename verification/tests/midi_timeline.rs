use midimi::smf::{EventKind, Fps, SmfFile, Timing, TrackEvent};
use midimi::midi::{midi_data_from_file, parse_midi, MidiData};

fn secs(md: &MidiData, units: u128) -> f64 {
    units as f64 / md.units_per_second as f64
}

fn smf(division: [u8; 2], tracks: &[Vec<u8>]) -> Vec<u8> {
    let mut v = Vec::new();
    v.extend_from_slice(b"MThd");
    v.extend_from_slice(&[0, 0, 0, 6, 0, if tracks.len() > 1 { 1 } else { 0 }, 0, tracks.len() as u8]);
    v.extend_from_slice(&division);
    for t in tracks {
        v.extend_from_slice(b"MTrk");
        v.extend_from_slice(&(t.len() as u32).to_be_bytes());
        v.extend_from_slice(t);
    }
    v
}

const END: [u8; 4] = [0x00, 0xFF, 0x2F, 0x00];

fn track(body: &[u8]) -> Vec<u8> {
    let mut t = body.to_vec();
    t.extend_from_slice(&END);
    t
}

#[test]
fn set_tempo_changes_the_length_of_a_quarter() {
    // 1_000_000 us per quarter (60 BPM): 96 ticks last one second.
    let t = track(&[0x00, 0xFF, 0x51, 0x03, 0x0F, 0x42, 0x40, 0x00, 0x90, 60, 100, 0x60, 0x80, 60, 0]);
    let md = parse_midi(&smf([0, 96], &[t])).unwrap();
    assert_eq!(md.notes.len(), 1);
    assert_eq!(md.units_per_second, 96_000_000);
    assert_eq!(md.notes[0].start, 0);
    assert_eq!(md.notes[0].dur, 96_000_000);
    assert!((secs(&md, md.duration) - 1.0).abs() < 1e-9);
}

#[test]
fn tempo_change_inside_a_note_is_integrated() {
    // 120 BPM for 48 ticks, then 60 BPM for 48 more: 0.25 s + 0.5 s.
    let t = track(&[
        0x00, 0x90, 60, 100, // note on at 0
        0x30, 0xFF, 0x51, 0x03, 0x0F, 0x42, 0x40, // tempo 1_000_000 at 48
        0x30, 0x80, 60, 0, // note off at 96
    ]);
    let md = parse_midi(&smf([0, 96], &[t])).unwrap();
    assert_eq!(md.notes[0].dur, 48 * 500_000 + 48 * 1_000_000);
    assert!((secs(&md, md.notes[0].dur) - 0.75).abs() < 1e-9);
}

#[test]
fn tempo_in_another_track_governs_all_tracks() {
    let conductor = track(&[0x00, 0xFF, 0x51, 0x03, 0x0F, 0x42, 0x40]);
    let music = track(&[0x00, 0x90, 60, 100, 0x60, 0x80, 60, 0]);
    let md = parse_midi(&smf([0, 96], &[music, conductor])).unwrap();
    assert!((secs(&md, md.notes[0].dur) - 1.0).abs() < 1e-9);
}

#[test]
fn first_set_tempo_at_a_tick_wins() {
    let t = track(&[
        0x00, 0xFF, 0x51, 0x03, 0x0F, 0x42, 0x40, // 1_000_000
        0x00, 0xFF, 0x51, 0x03, 0x03, 0xD0, 0x90, // 250_000 at the same tick
        0x00, 0x90, 60, 100, 0x60, 0x80, 60, 0,
    ]);
    let md = parse_midi(&smf([0, 96], &[t])).unwrap();
    assert!((secs(&md, md.notes[0].dur) - 1.0).abs() < 1e-9);
}

#[test]
fn timecode_files_count_ticks_per_second() {
    // -25 fps, 40 ticks per frame: 1000 ticks per second.
    let t = track(&[0x00, 0x90, 60, 100, 0x83, 0x74, 0x80, 60, 0]); // off after 500 ticks
    let md = parse_midi(&smf([0xE7, 40], &[t])).unwrap();
    assert_eq!(md.units_per_second, 1000);
    assert!((secs(&md, md.notes[0].dur) - 0.5).abs() < 1e-9);
}

#[test]
fn drop_frame_rate_is_thirty_over_one_point_zero_zero_one() {
    // -29 fps (29.97), 100 ticks per frame.
    let t = track(&[0x00, 0x90, 60, 100, 0x97, 0x35, 0x80, 60, 0]); // 2997 ticks
    let md = parse_midi(&smf([0xE3, 100], &[t])).unwrap();
    assert_eq!(md.units_per_second, 3_000_000);
    assert_eq!(md.notes[0].dur, 2997 * 1001);
    assert!((secs(&md, md.notes[0].dur) - 2997.0 * 1.001 / 3000.0).abs() < 1e-9);
}

#[test]
fn hanging_note_ends_with_its_track() {
    let t = vec![0x00, 0x90, 60, 100, 0x60, 0xFF, 0x2F, 0x00];
    let md = parse_midi(&smf([0, 96], &[t])).unwrap();
    assert_eq!(md.notes.len(), 1);
    assert!((secs(&md, md.notes[0].dur) - 0.5).abs() < 1e-9);
}

#[test]
fn restarted_note_keeps_only_the_later_start() {
    let t = track(&[0x00, 0x90, 60, 100, 0x30, 0x90, 60, 90, 0x30, 0x80, 60, 0]);
    let md = parse_midi(&smf([0, 96], &[t])).unwrap();
    assert_eq!(md.notes.len(), 1);
    assert_eq!(md.notes[0].velocity, 90);
    assert!((secs(&md, md.notes[0].start) - 0.25).abs() < 1e-9);
    assert!((secs(&md, md.notes[0].dur) - 0.25).abs() < 1e-9);
}

#[test]
fn note_off_without_note_on_is_ignored() {
    let t = track(&[0x00, 0x80, 60, 0]);
    let md = parse_midi(&smf([0, 96], &[t])).unwrap();
    assert!(md.notes.is_empty());
    assert_eq!(md.duration, 0);
}

#[test]
fn notes_are_ordered_by_onset_across_tracks() {
    let a = track(&[0x30, 0x90, 62, 100, 0x30, 0x80, 62, 0]); // 48..96
    let b = track(&[0x00, 0x91, 64, 100, 0x60, 0x81, 64, 0]); // 0..96 on channel 1
    let md = parse_midi(&smf([0, 96], &[a, b])).unwrap();
    assert_eq!(md.notes.len(), 2);
    assert_eq!(md.notes[0].note, 64);
    assert_eq!(md.notes[0].track, 1);
    assert_eq!(md.notes[0].channel, 1);
    assert_eq!(md.notes[1].note, 62);
    assert_eq!(md.notes[1].track, 0);
}

#[test]
fn equal_onsets_keep_reading_order() {
    // Both start at 0; key 67 ends first so it is read first.
    let t = track(&[0x00, 0x90, 60, 100, 0x00, 0x90, 67, 100, 0x30, 0x80, 67, 0, 0x30, 0x80, 60, 0]);
    let md = parse_midi(&smf([0, 96], &[t])).unwrap();
    assert_eq!(md.notes[0].note, 67);
    assert_eq!(md.notes[1].note, 60);
}

#[test]
fn title_is_the_first_track_name() {
    let a = track(&[0x00, 0x90, 60, 100, 0x60, 0x80, 60, 0]);
    let b = track(&[0x00, 0xFF, 0x03, 0x05, b'P', b'i', b'a', b'n', b'o']);
    let c = track(&[0x00, 0xFF, 0x03, 0x04, b'B', b'a', b's', b's']);
    let md = parse_midi(&smf([0, 96], &[a, b, c])).unwrap();
    assert_eq!(md.tracks.len(), 3);
    assert_eq!(md.tracks[0].name, None);
    assert_eq!(md.tracks[1].index, 1);
    assert_eq!(md.tracks[1].name.as_deref(), Some("Piano"));
    assert_eq!(md.tracks[2].name.as_deref(), Some("Bass"));
    assert_eq!(md.title.as_deref(), Some("Piano"));
}

#[test]
fn invalid_utf8_in_a_track_name_is_replaced() {
    let t = track(&[0x00, 0xFF, 0x03, 0x03, b'a', 0xFF, b'b']);
    let md = parse_midi(&smf([0, 96], &[t])).unwrap();
    assert_eq!(md.title.as_deref(), Some("a\u{FFFD}b"));
}

#[test]
fn garbage_is_invalid_midi() {
    let err = parse_midi(b"not a midi file").unwrap_err();
    assert!(err.starts_with("invalid MIDI: "), "{err}");
    let detail = &err["invalid MIDI: ".len()..];
    assert!(detail.starts_with("invalid midi: ") || detail.starts_with("malformed midi: "), "{err}");
}

#[test]
fn timeline_of_a_file_built_by_hand() {
    let file = SmfFile {
        timing: Timing::Metrical(480),
        tracks: vec![vec![
            TrackEvent { delta: 0, kind: EventKind::TrackName(b"Lead".to_vec()) },
            TrackEvent { delta: 0, kind: EventKind::NoteOn { channel: 2, key: 72, vel: 64 } },
            TrackEvent { delta: 240, kind: EventKind::NoteOn { channel: 2, key: 72, vel: 0 } },
            TrackEvent { delta: 0, kind: EventKind::Other },
        ]],
    };
    let md = midi_data_from_file(&file);
    assert_eq!(md.units_per_second, 480_000_000);
    assert_eq!(md.title.as_deref(), Some("Lead"));
    assert_eq!(md.notes.len(), 1);
    assert_eq!(md.notes[0].channel, 2);
    assert_eq!(md.notes[0].note, 72);
    assert_eq!(md.notes[0].velocity, 64);
    assert_eq!(md.notes[0].dur, 240 * 500_000);
    assert_eq!(md.duration, 240 * 500_000);
}

#[test]
fn timecode_file_built_by_hand_has_no_tempo_map() {
    let file = SmfFile {
        timing: Timing::Timecode(Fps::Fps24, 10),
        tracks: vec![vec![
            TrackEvent { delta: 0, kind: EventKind::Tempo(1_000_000) },
            TrackEvent { delta: 0, kind: EventKind::NoteOn { channel: 0, key: 1, vel: 1 } },
            TrackEvent { delta: 240, kind: EventKind::NoteOff { channel: 0, key: 1 } },
        ]],
    };
    let md = midi_data_from_file(&file);
    assert_eq!(md.units_per_second, 240);
    assert_eq!(md.notes[0].dur, 240);
}
