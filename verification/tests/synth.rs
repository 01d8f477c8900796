use midimi::rsguard::midi_reader_safe_at;
use midimi::sfguard::soundfont_reader_safe_at;
use midimi::synth::{load_midi, load_soundfont_bytes, open_midi_bytes};

fn tiny_midi() -> Vec<u8> {
    let mut v = Vec::new();
    v.extend_from_slice(b"MThd");
    v.extend_from_slice(&[0, 0, 0, 6, 0, 0, 0, 1, 0, 96]);
    v.extend_from_slice(b"MTrk");
    let track: [u8; 12] = [0x00, 0x90, 0x3C, 0x64, 0x60, 0x80, 0x3C, 0x00, 0x00, 0xFF, 0x2F, 0x00];
    v.extend_from_slice(&(track.len() as u32).to_be_bytes());
    v.extend_from_slice(&track);
    v
}

#[test]
fn sequencer_reads_a_small_file() {
    let midi = load_midi(&tiny_midi()).expect("rustysynth reads it");
    assert!((midi.get_length() - 0.5).abs() < 1e-3);
}

#[test]
fn sequencer_refuses_garbage() {
    let err = load_midi(b"garbage bytes").unwrap_err();
    assert!(err.starts_with("midi load: "), "{err}");
    assert!(err.len() > "midi load: ".len());
}

#[test]
fn soundfont_refuses_garbage() {
    let err = load_soundfont_bytes(b"RIFF").unwrap_err();
    assert!(err.starts_with("soundfont load: "), "{err}");
    assert!(err.len() > "soundfont load: ".len());
}

#[test]
fn opening_gives_timeline_and_sequence() {
    let (md, midi) = open_midi_bytes(&tiny_midi()).unwrap();
    assert_eq!(md.notes.len(), 1);
    assert!((midi.get_length() - 0.5).abs() < 1e-3);
}

#[test]
fn opening_garbage_reports_the_timeline_error() {
    let err = open_midi_bytes(b"not a midi file").unwrap_err();
    assert!(err.starts_with("invalid MIDI: "), "{err}");
}

fn midi_with_track_length(len: [u8; 4]) -> Vec<u8> {
    let mut v = Vec::new();
    v.extend_from_slice(b"MThd");
    v.extend_from_slice(&[0, 0, 0, 6, 0, 0, 0, 1, 0, 96]);
    v.extend_from_slice(b"MTrk");
    v.extend_from_slice(&len);
    v.extend_from_slice(&[0x00, 0xFF, 0x2F, 0x00]);
    v
}

#[test]
fn sequencer_guard_takes_well_formed_files() {
    assert!(midi_reader_safe_at(&tiny_midi()));
    assert!(midi_reader_safe_at(b"garbage bytes"));
    assert!(midi_reader_safe_at(&midi_with_track_length([0, 0, 0, 4])));
}

#[test]
fn sequencer_guard_refuses_a_negative_track_length() {
    let bytes = midi_with_track_length([0xFF, 0xFF, 0xFF, 0xFF]);
    assert!(!midi_reader_safe_at(&bytes));
    let err = load_midi(&bytes).unwrap_err();
    assert_eq!(err, "midi load: track length or timing out of range");
}

#[test]
fn sequencer_guard_refuses_a_track_length_past_the_file() {
    let bytes = midi_with_track_length([0, 0, 0x10, 0]);
    assert!(!midi_reader_safe_at(&bytes));
}

#[test]
fn sequencer_guard_refuses_ticks_past_i32() {
    let mut v = Vec::new();
    v.extend_from_slice(b"MThd");
    v.extend_from_slice(&[0, 0, 0, 6, 0, 0, 0, 1, 0, 96]);
    v.extend_from_slice(b"MTrk");
    let mut track = Vec::new();
    for _ in 0..9 {
        track.extend_from_slice(&[0xFF, 0xFF, 0xFF, 0x7F, 0xFF, 0x01, 0x00]);
    }
    track.extend_from_slice(&[0x00, 0xFF, 0x2F, 0x00]);
    v.extend_from_slice(&(track.len() as u32).to_be_bytes());
    v.extend_from_slice(&track);
    assert!(!midi_reader_safe_at(&v));
}

fn soundfont_with_info(info: &[u8]) -> Vec<u8> {
    let mut v = Vec::new();
    v.extend_from_slice(b"RIFF");
    v.extend_from_slice(&((info.len() + 16) as u32).to_le_bytes());
    v.extend_from_slice(b"sfbk");
    v.extend_from_slice(b"LIST");
    v.extend_from_slice(&((info.len() + 4) as u32).to_le_bytes());
    v.extend_from_slice(b"INFO");
    v.extend_from_slice(info);
    v
}

#[test]
fn soundfont_guard_takes_files_that_fail_cleanly() {
    assert!(soundfont_reader_safe_at(b"RIFF"));
    assert!(soundfont_reader_safe_at(b"garbage bytes that are no soundfont"));
    let mut info = Vec::new();
    info.extend_from_slice(b"INAM");
    info.extend_from_slice(&4u32.to_le_bytes());
    info.extend_from_slice(b"name");
    let bytes = soundfont_with_info(&info);
    assert!(soundfont_reader_safe_at(&bytes));
    let err = load_soundfont_bytes(&bytes).unwrap_err();
    assert!(err.starts_with("soundfont load: "), "{err}");
    assert_ne!(err, "soundfont load: index or size out of range");
}

#[test]
fn soundfont_guard_refuses_a_chunk_past_the_file() {
    let mut info = Vec::new();
    info.extend_from_slice(b"INAM");
    info.extend_from_slice(&0xFFFF_FFF0u32.to_le_bytes());
    let bytes = soundfont_with_info(&info);
    assert!(!soundfont_reader_safe_at(&bytes));
    let err = load_soundfont_bytes(&bytes).unwrap_err();
    assert_eq!(err, "soundfont load: index or size out of range");
}

fn chunk(id: &[u8], body: &[u8]) -> Vec<u8> {
    let mut v = Vec::new();
    v.extend_from_slice(id);
    v.extend_from_slice(&(body.len() as u32).to_le_bytes());
    v.extend_from_slice(body);
    v
}

fn list(kind: &[u8], parts: &[Vec<u8>]) -> Vec<u8> {
    let mut body = kind.to_vec();
    for p in parts {
        body.extend_from_slice(p);
    }
    chunk(b"LIST", &body)
}

fn soundfont_with_zone_index(index: u16) -> Vec<u8> {
    let mut ibag = vec![0u8; 8];
    ibag[4..6].copy_from_slice(&index.to_le_bytes());
    let mut body = b"sfbk".to_vec();
    body.extend_from_slice(&list(b"INFO", &[]));
    body.extend_from_slice(&list(b"sdta", &[chunk(b"smpl", &[0; 4])]));
    body.extend_from_slice(&list(
        b"pdta",
        &[
            chunk(b"phdr", &[0; 76]),
            chunk(b"pbag", &[0; 8]),
            chunk(b"pgen", &[0; 4]),
            chunk(b"inst", &[0; 44]),
            chunk(b"ibag", &ibag),
            chunk(b"igen", &[0; 4]),
            chunk(b"shdr", &[0; 92]),
        ],
    ));
    chunk(b"RIFF", &body)
}

#[test]
fn soundfont_guard_refuses_zones_past_the_generators() {
    assert!(soundfont_reader_safe_at(&soundfont_with_zone_index(0)));
    let bytes = soundfont_with_zone_index(5);
    assert!(!soundfont_reader_safe_at(&bytes));
    let err = load_soundfont_bytes(&bytes).unwrap_err();
    assert_eq!(err, "soundfont load: index or size out of range");
}
