//! Decisions of the render thread. The thread drains control messages, then
//! either renders one block of audio into the ring buffer that feeds the
//! output device, or idles. Rendering, the sequencer and the buffer live
//! outside; this module decides what happens, from the state and the event.

use vstd::prelude::*;

verus! {

/// Frames rendered per block.
pub const BLOCK_FRAMES: usize = 1024;

/// Samples the ring buffer between render thread and output holds: eight
/// stereo blocks.
pub const RING_SAMPLES: usize = BLOCK_FRAMES * 2 * 8;

/// Size of the analysis window, in samples.
pub const FFT_SIZE: usize = 1024;

/// Number of spectrum bands reported with each block.
pub const N_BANDS: usize = 16;

/// What the render thread knows of playback.
#[derive(Clone, Copy, Debug, PartialEq, Eq, Structural)]
pub struct PlayerState {
    /// A sequencer with a song is installed.
    pub loaded: bool,
    /// Playback runs when there is room for a block.
    pub playing: bool,
}

/// A control message, with what the thread learned in handling it.
#[derive(Clone, Copy, Debug, PartialEq, Eq, Structural)]
pub enum Control {
    /// Load a song; `synth_ready` tells whether the synthesizer could be built
    /// from the soundfont.
    Load { synth_ready: bool },
    Play,
    Pause,
    Seek,
    SetSpeed,
    SetVolume,
    /// The sending side is gone.
    Disconnected,
}

/// What the thread does about a control message.
#[derive(Clone, Copy, Debug, PartialEq, Eq, Structural)]
pub enum Effect {
    /// Install the new sequencer and start the song from its beginning.
    Install,
    /// Report that the synthesizer could not be built; keep what plays.
    ReportLoadFailure,
    /// Restart the song and render silently up to the target position.
    Seek,
    /// Pass the new speed to the sequencer.
    ApplySpeed,
    /// Store the new volume, clamped.
    ApplyVolume,
    /// Leave the render loop.
    Exit,
    Nothing,
}

pub open spec fn control_spec(s: PlayerState, c: Control) -> (PlayerState, Effect) {
    match c {
        Control::Load { synth_ready } => if synth_ready {
            (PlayerState { loaded: true, playing: true }, Effect::Install)
        } else {
            (s, Effect::ReportLoadFailure)
        },
        Control::Play => (PlayerState { playing: true, ..s }, Effect::Nothing),
        Control::Pause => (PlayerState { playing: false, ..s }, Effect::Nothing),
        Control::Seek => (s, if s.loaded { Effect::Seek } else { Effect::Nothing }),
        Control::SetSpeed => (s, if s.loaded { Effect::ApplySpeed } else { Effect::Nothing }),
        Control::SetVolume => (s, Effect::ApplyVolume),
        Control::Disconnected => (s, Effect::Exit),
    }
}

/// Handles one control message. A loaded song starts playing at once; seek
/// and speed need a song; volume is always kept.
pub fn on_control(s: PlayerState, c: Control) -> (r: (PlayerState, Effect))
    ensures
        r == control_spec(s, c),
{
    match c {
        Control::Load { synth_ready } => if synth_ready {
            (PlayerState { loaded: true, playing: true }, Effect::Install)
        } else {
            (s, Effect::ReportLoadFailure)
        },
        Control::Play => (PlayerState { loaded: s.loaded, playing: true }, Effect::Nothing),
        Control::Pause => (PlayerState { loaded: s.loaded, playing: false }, Effect::Nothing),
        Control::Seek => (s, if s.loaded { Effect::Seek } else { Effect::Nothing }),
        Control::SetSpeed => (s, if s.loaded { Effect::ApplySpeed } else { Effect::Nothing }),
        Control::SetVolume => (s, Effect::ApplyVolume),
        Control::Disconnected => (s, Effect::Exit),
    }
}

pub open spec fn render_spec(s: PlayerState, free_slots: usize) -> bool {
    s.playing && s.loaded && free_slots >= 2 * BLOCK_FRAMES
}

/// Whether to render a block now: only while playing a loaded song, and only
/// when the ring buffer has room for the whole stereo block, so that no
/// sample of it is dropped.
pub fn should_render(s: PlayerState, free_slots: usize) -> (r: bool)
    ensures
        r == render_spec(s, free_slots),
{
    s.playing && s.loaded && free_slots >= 2 * BLOCK_FRAMES
}

pub open spec fn after_block_spec(s: PlayerState, end_of_sequence: bool) -> PlayerState {
    PlayerState { loaded: s.loaded, playing: s.playing && !end_of_sequence }
}

/// The state after a rendered block: playback stops at the end of the song.
pub fn after_block(s: PlayerState, end_of_sequence: bool) -> (r: PlayerState)
    ensures
        r == after_block_spec(s, end_of_sequence),
{
    PlayerState { loaded: s.loaded, playing: s.playing && !end_of_sequence }
}

/// Law: a paused player renders nothing, whatever room the buffer has.
pub proof fn law_pause_stops_rendering(s: PlayerState, free_slots: usize)
    ensures
        !render_spec(control_spec(s, Control::Pause).0, free_slots),
{
}

/// Law: a song that loads plays as soon as the buffer has room for a block.
pub proof fn law_load_starts_playback(s: PlayerState, free_slots: usize)
    requires
        free_slots >= 2 * BLOCK_FRAMES,
    ensures
        render_spec(control_spec(s, Control::Load { synth_ready: true }).0, free_slots),
{
}

/// Law: a load that fails leaves playback as it was.
pub proof fn law_failed_load_keeps_state(s: PlayerState)
    ensures
        control_spec(s, Control::Load { synth_ready: false }).0 == s,
{
}

/// Law: without a song, no message other than a load makes the thread render.
pub proof fn law_nothing_renders_without_song(s: PlayerState, c: Control, free_slots: usize)
    requires
        !s.loaded,
        !(c is Load),
    ensures
        !render_spec(control_spec(s, c).0, free_slots),
{
}

/// Law: after the block that reaches the end of the song, rendering stops
/// until playback is started again.
pub proof fn law_end_stops_rendering(s: PlayerState, free_slots: usize)
    ensures
        !render_spec(after_block_spec(s, true), free_slots),
{
}

/// Law: with a song installed, a seek always restarts it and renders up to
/// the target, and a speed change always reaches the sequencer, whether the
/// song is playing or paused; neither changes playback state.
pub proof fn law_seek_and_speed_act_on_any_loaded_song(s: PlayerState)
    requires
        s.loaded,
    ensures
        control_spec(s, Control::Seek) == (s, Effect::Seek),
        control_spec(s, Control::SetSpeed) == (s, Effect::ApplySpeed),
        control_spec(PlayerState { playing: !s.playing, ..s }, Control::Seek).1 == control_spec(s, Control::Seek).1,
{
}

/// Law: only a load that succeeds changes whether a song is installed; Play
/// and Pause set whether it plays and nothing else, and volume is kept with
/// or without a song.
pub proof fn law_controls_keep_the_song(s: PlayerState, c: Control)
    ensures
        !(c matches Control::Load { synth_ready: true }) ==> control_spec(s, c).0.loaded == s.loaded,
        control_spec(s, Control::Play).0 == (PlayerState { loaded: s.loaded, playing: true }),
        control_spec(s, Control::Pause).0 == (PlayerState { loaded: s.loaded, playing: false }),
        control_spec(s, Control::SetVolume).1 == Effect::ApplyVolume,
{
}

} // verus!
