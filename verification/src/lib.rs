//! Verified core of a desktop MIDI player: reading Standard MIDI Files into a
//! note timeline with exact timing, the playback state machine of the render
//! thread, and the small decisions around the soundfont and settings library.

pub mod smf;
pub mod timebase;
pub mod midi;
pub mod sort;
pub mod library;
pub mod player;
pub mod analysis;
pub mod synth;
pub mod rsguard;
pub mod sfguard;
