//! Loading what the synthesizer plays: the sequencer's own reading of a MIDI
//! file, and soundfonts. Decoding is done by `rustysynth`.

use vstd::prelude::*;
use crate::midi::{parse_midi, timeline, MidiData};
use crate::smf::midly_parse;
use crate::rsguard::{midi_reader_safe, midi_reader_safe_at};
use crate::sfguard::{soundfont_reader_safe, soundfont_reader_safe_at};

verus! {

#[verifier::external_type_specification]
#[verifier::external_body]
pub struct ExMidiFile(rustysynth::MidiFile);

#[verifier::external_type_specification]
#[verifier::external_body]
pub struct ExSoundFont(rustysynth::SoundFont);

/// Whether `rustysynth::MidiFile::new` reads these bytes as a MIDI file.
pub uninterp spec fn rustysynth_midi_accepts(bytes: Seq<u8>) -> bool;

/// The `rustysynth::MidiFile` that `MidiFile::new` reads from these bytes.
pub uninterp spec fn rustysynth_midi_read(bytes: Seq<u8>) -> rustysynth::MidiFile;

/// Whether `rustysynth::SoundFont::new` reads these bytes as a soundfont.
pub uninterp spec fn rustysynth_soundfont_accepts(bytes: Seq<u8>) -> bool;

/// The `rustysynth::SoundFont` that `SoundFont::new` reads from these bytes.
pub uninterp spec fn rustysynth_soundfont_read(bytes: Seq<u8>) -> rustysynth::SoundFont;

/// Calls `rustysynth::MidiFile::new` on the bytes and turns an error into its
/// debug text. Trusted: on bytes its reader takes without failing hard (see
/// `rsguard`), it succeeds exactly where the named acceptance holds and
/// returns the named reading of the bytes. Left unsaid: what the error text
/// reads.
#[verifier::external_body]
fn midi_file_from_bytes(bytes: &[u8]) -> (r: Result<rustysynth::MidiFile, String>)
    requires
        midi_reader_safe(bytes@),
    ensures
        r is Ok <==> rustysynth_midi_accepts(bytes@),
        r matches Ok(m) ==> m == rustysynth_midi_read(bytes@),
{
    match rustysynth::MidiFile::new(&mut std::io::Cursor::new(bytes)) {
        Ok(m) => Ok(m),
        Err(e) => Err(format!("{e:?}")),
    }
}

/// Calls `rustysynth::SoundFont::new` on the bytes and turns an error into
/// its debug text. Trusted: on bytes its reader takes without failing hard
/// (see `sfguard`), it succeeds exactly where the named acceptance holds and
/// returns the named reading of the bytes. Left unsaid: what the error text
/// reads.
#[verifier::external_body]
fn soundfont_from_bytes(bytes: &[u8]) -> (r: Result<rustysynth::SoundFont, String>)
    requires
        soundfont_reader_safe(bytes@),
    ensures
        r is Ok <==> rustysynth_soundfont_accepts(bytes@),
        r matches Ok(sf) ==> sf == rustysynth_soundfont_read(bytes@),
{
    match rustysynth::SoundFont::new(&mut std::io::Cursor::new(bytes)) {
        Ok(sf) => Ok(sf),
        Err(e) => Err(format!("{e:?}")),
    }
}

/// The sequencer's reading of a MIDI file. Files its reader would fail hard
/// on (a track length that is negative or reaches past the file, or delta
/// times adding up past `i32::MAX` in a track) are refused before the call.
/// Errors read "midi load: " and a description.
pub fn load_midi(bytes: &[u8]) -> (r: Result<rustysynth::MidiFile, String>)
    ensures
        r is Ok <==> midi_reader_safe(bytes@) && rustysynth_midi_accepts(bytes@),
        r matches Ok(m) ==> m == rustysynth_midi_read(bytes@),
        r matches Err(m) ==> "midi load: "@.is_prefix_of(m@),
        !midi_reader_safe(bytes@) ==> (r matches Err(m) && m@ == "midi load: track length or timing out of range"@),
{
    if !midi_reader_safe_at(bytes) {
        proof {
            reveal_strlit("midi load: track length or timing out of range");
            reveal_strlit("midi load: ");
        }
        return Err(String::from_str("midi load: track length or timing out of range"));
    }
    match midi_file_from_bytes(bytes) {
        Ok(m) => Ok(m),
        Err(detail) => {
            let msg = String::from_str("midi load: ").concat(detail.as_str());
            proof {
                reveal_strlit("midi load: ");
            }
            Err(msg)
        },
    }
}

/// A soundfont from the bytes of an `.sf2` file. Files its reader would
/// fail hard on (a chunk reaching past the file, zone, instrument or preset
/// indices reaching past the lists they index, sample positions near the
/// ends of the `i32` range) are refused before the call. Errors read
/// "soundfont load: " and a description.
pub fn load_soundfont_bytes(bytes: &[u8]) -> (r: Result<rustysynth::SoundFont, String>)
    ensures
        r is Ok <==> soundfont_reader_safe(bytes@) && rustysynth_soundfont_accepts(bytes@),
        r matches Ok(sf) ==> sf == rustysynth_soundfont_read(bytes@),
        r matches Err(m) ==> "soundfont load: "@.is_prefix_of(m@),
        !soundfont_reader_safe(bytes@) ==> (r matches Err(m) && m@ == "soundfont load: index or size out of range"@),
{
    if !soundfont_reader_safe_at(bytes) {
        proof {
            reveal_strlit("soundfont load: index or size out of range");
            reveal_strlit("soundfont load: ");
        }
        return Err(String::from_str("soundfont load: index or size out of range"));
    }
    match soundfont_from_bytes(bytes) {
        Ok(sf) => Ok(sf),
        Err(detail) => {
            let msg = String::from_str("soundfont load: ").concat(detail.as_str());
            proof {
                reveal_strlit("soundfont load: ");
            }
            Err(msg)
        },
    }
}

/// Opens the bytes of a MIDI file for playback: its timeline for display,
/// and the sequencer's reading of it. The timeline is read first, so a file
/// both readers refuse reports the timeline's error.
pub fn open_midi_bytes(bytes: &[u8]) -> (r: Result<(MidiData, rustysynth::MidiFile), String>)
    ensures
        r is Ok <==> midly_parse(bytes@) is Ok && midi_reader_safe(bytes@) && rustysynth_midi_accepts(bytes@),
        r matches Ok(p) ==> p.0@ == timeline(midly_parse(bytes@)->Ok_0),
        r matches Ok(p) ==> p.1 == rustysynth_midi_read(bytes@),
        midly_parse(bytes@) is Err ==> (r matches Err(m) && m@ == "invalid MIDI: "@ + midly_parse(bytes@)->Err_0),
        midly_parse(bytes@) is Ok && !(midi_reader_safe(bytes@) && rustysynth_midi_accepts(bytes@)) ==> (r matches Err(m)
            && "midi load: "@.is_prefix_of(m@)),
{
    let md = match parse_midi(bytes) {
        Ok(md) => md,
        Err(e) => return Err(e),
    };
    let midi = match load_midi(bytes) {
        Ok(m) => m,
        Err(e) => return Err(e),
    };
    Ok((md, midi))
}

} // verus!
