use midimi::analysis::{band_bin_ranges, band_edge_bin};
use midimi::player::{after_block, on_control, should_render, Control, Effect, PlayerState, BLOCK_FRAMES};

const IDLE: PlayerState = PlayerState { loaded: false, playing: false };

#[test]
fn load_starts_playback() {
    let (s, e) = on_control(IDLE, Control::Load { synth_ready: true });
    assert_eq!(e, Effect::Install);
    assert!(s.loaded && s.playing);
    assert!(should_render(s, 2 * BLOCK_FRAMES));
    assert!(!should_render(s, 2 * BLOCK_FRAMES - 1));
}

#[test]
fn failed_load_keeps_state() {
    let playing = PlayerState { loaded: true, playing: true };
    assert_eq!(on_control(playing, Control::Load { synth_ready: false }), (playing, Effect::ReportLoadFailure));
}

#[test]
fn pause_and_play_toggle_rendering() {
    let (s, _) = on_control(IDLE, Control::Load { synth_ready: true });
    let (paused, e) = on_control(s, Control::Pause);
    assert_eq!(e, Effect::Nothing);
    assert!(!should_render(paused, 1 << 20));
    let (resumed, _) = on_control(paused, Control::Play);
    assert!(should_render(resumed, 1 << 20));
}

#[test]
fn seek_and_speed_need_a_song() {
    assert_eq!(on_control(IDLE, Control::Seek).1, Effect::Nothing);
    assert_eq!(on_control(IDLE, Control::SetSpeed).1, Effect::Nothing);
    assert_eq!(on_control(IDLE, Control::SetVolume).1, Effect::ApplyVolume);
    let loaded = PlayerState { loaded: true, playing: false };
    assert_eq!(on_control(loaded, Control::Seek).1, Effect::Seek);
    assert_eq!(on_control(loaded, Control::SetSpeed).1, Effect::ApplySpeed);
    assert_eq!(on_control(loaded, Control::Disconnected).1, Effect::Exit);
}

#[test]
fn play_without_song_renders_nothing() {
    let (s, _) = on_control(IDLE, Control::Play);
    assert!(s.playing);
    assert!(!should_render(s, 1 << 20));
}

#[test]
fn end_of_song_stops_playback() {
    let s = PlayerState { loaded: true, playing: true };
    assert_eq!(after_block(s, false), s);
    let done = after_block(s, true);
    assert!(!done.playing && done.loaded);
    assert!(!should_render(done, 1 << 20));
}

#[test]
fn band_edges_are_held_to_usable_bins() {
    assert_eq!(band_edge_bin(0, 512), 1);
    assert_eq!(band_edge_bin(700, 512), 512);
    assert_eq!(band_edge_bin(37, 512), 37);
}

#[test]
fn band_ranges_are_never_empty() {
    let ranges = band_bin_ranges(&vec![1, 1, 2, 5, 5, 512]);
    assert_eq!(ranges, vec![(1, 2), (1, 2), (2, 5), (5, 6), (5, 512)]);
    assert!(band_bin_ranges(&vec![3]).is_empty());
}
