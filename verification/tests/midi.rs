use midimi::midi::{parse_midi, MidiData};

fn seconds(md: &MidiData, units: u128) -> f64 {
    units as f64 / md.units_per_second as f64
}

// Minimal SMF: format 0, 1 track, 96 ticks/quarter, default tempo (120 BPM => quarter = 0.5s).
// Events: NoteOn ch0 key60 vel100 @t0 ; NoteOff ch0 key60 @ +96 ticks ; EndOfTrack.
fn tiny_midi() -> Vec<u8> {
    let mut v = Vec::new();
    v.extend_from_slice(b"MThd");
    v.extend_from_slice(&[0, 0, 0, 6, 0, 0, 0, 1, 0, 96]); // len=6, fmt=0, ntrks=1, div=96
    v.extend_from_slice(b"MTrk");
    let track: [u8; 12] = [
        0x00, 0x90, 0x3C, 0x64, // dt0  NoteOn  ch0 key60 vel100
        0x60, 0x80, 0x3C, 0x00, // dt96 NoteOff ch0 key60 vel0
        0x00, 0xFF, 0x2F, 0x00, // dt0  EndOfTrack
    ];
    v.extend_from_slice(&(track.len() as u32).to_be_bytes());
    v.extend_from_slice(&track);
    v
}

#[test]
fn parses_one_note_with_correct_timing() {
    let data = tiny_midi();
    let md = parse_midi(&data).expect("should parse");
    assert_eq!(md.tracks.len(), 1);
    assert_eq!(md.notes.len(), 1, "exactly one note");
    let n = &md.notes[0];
    assert_eq!(n.note, 60);
    assert_eq!(n.velocity, 100);
    assert!((seconds(&md, n.start) - 0.0).abs() < 1e-6, "starts at 0");
    assert!((seconds(&md, n.dur) - 0.5).abs() < 1e-3, "96 ticks @120BPM = 0.5s, got {}", seconds(&md, n.dur));
    assert!((seconds(&md, md.duration) - 0.5).abs() < 1e-3);
}

#[test]
fn note_on_velocity_zero_is_note_off() {
    // NoteOn vel0 should close the note, not open a second.
    let mut v = Vec::new();
    v.extend_from_slice(b"MThd");
    v.extend_from_slice(&[0, 0, 0, 6, 0, 0, 0, 1, 0, 96]);
    v.extend_from_slice(b"MTrk");
    let track: [u8; 12] = [
        0x00, 0x90, 0x40, 0x50, // NoteOn key64 vel80
        0x30, 0x90, 0x40, 0x00, // NoteOn key64 vel0  == NoteOff (dt48)
        0x00, 0xFF, 0x2F, 0x00,
    ];
    v.extend_from_slice(&(track.len() as u32).to_be_bytes());
    v.extend_from_slice(&track);
    let md = parse_midi(&v).unwrap();
    assert_eq!(md.notes.len(), 1);
    assert!((seconds(&md, md.notes[0].dur) - 0.25).abs() < 1e-3);
}
