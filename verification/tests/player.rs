use blinkview::player::{frames_wanted, poll_frame_step, toggle_pause_step, PlayerState, QueuePoll};
use QueuePoll::{Disconnected, Empty, Frame};

fn fresh() -> PlayerState {
    PlayerState { paused: false, ended: false, has_frame: false, audio_started: false, presented_frames: 0 }
}

fn showing(presented_frames: u64) -> PlayerState {
    PlayerState { has_frame: true, audio_started: true, presented_frames, ..fresh() }
}

#[test]
fn nothing_happens_while_paused_or_early() {
    let paused = PlayerState { paused: true, ..showing(3) };
    assert_eq!(frames_wanted(&paused, true, 5), 0);
    let r = poll_frame_step(&paused, true, 5, &[Frame, Frame]);
    assert_eq!(r.state, paused);
    assert_eq!(r.frames_taken, 0);
    assert!(!r.changed && !r.stop_audio && !r.start_audio_at_zero);
    assert_eq!(frames_wanted(&showing(3), false, 0), 0);
    let r = poll_frame_step(&showing(3), false, 0, &[Frame]);
    assert_eq!(r.frames_taken, 0);
    assert!(!r.changed);
}

#[test]
fn first_frame_starts_clock_and_audio() {
    assert_eq!(frames_wanted(&fresh(), true, 7), 1);
    let r = poll_frame_step(&fresh(), true, 7, &[Frame]);
    assert_eq!(r.frames_taken, 1);
    assert!(r.start_audio_at_zero && r.restart_clock && r.changed && !r.stop_audio);
    assert_eq!(r.state, showing(0));
    let r = poll_frame_step(&fresh(), true, 0, &[Empty]);
    assert_eq!(r.frames_taken, 0);
    assert!(!r.changed && !r.start_audio_at_zero);
}

#[test]
fn audio_is_not_started_twice() {
    let s = PlayerState { audio_started: true, ..fresh() };
    let r = poll_frame_step(&s, true, 0, &[Frame]);
    assert!(!r.start_audio_at_zero && r.restart_clock);
}

#[test]
fn late_ticks_catch_up_at_most_sixteen_frames() {
    assert_eq!(frames_wanted(&showing(0), true, 0), 1);
    assert_eq!(frames_wanted(&showing(0), true, 2), 3);
    assert_eq!(frames_wanted(&showing(0), true, 15), 16);
    assert_eq!(frames_wanted(&showing(0), true, usize::MAX), 16);
    let r = poll_frame_step(&showing(10), true, 2, &[Frame, Frame, Frame, Frame]);
    assert_eq!(r.frames_taken, 3);
    assert_eq!(r.state.presented_frames, 13);
    assert!(r.changed && !r.restart_clock);
    let r = poll_frame_step(&showing(10), true, 2, &[Frame, Empty, Frame]);
    assert_eq!(r.frames_taken, 1);
    let r = poll_frame_step(&showing(u64::MAX), true, 0, &[Frame]);
    assert_eq!(r.state.presented_frames, u64::MAX);
}

#[test]
fn end_of_stream_stops_audio_once() {
    let r = poll_frame_step(&showing(4), true, 3, &[Frame, Disconnected]);
    assert_eq!(r.frames_taken, 1);
    assert!(r.state.ended && r.stop_audio && r.changed);
    let ended = r.state;
    let r = poll_frame_step(&ended, true, 0, &[Disconnected]);
    assert!(r.state.ended && r.stop_audio && !r.changed);
    let r = poll_frame_step(&fresh(), true, 0, &[Disconnected]);
    assert!(r.state.ended && r.changed && !r.state.has_frame);
}

#[test]
fn pause_key_stops_and_restarts_audio() {
    let p = toggle_pause_step(&showing(5));
    assert!(p.state.paused && p.stop_audio && !p.restart_audio && p.restart_clock);
    let q = toggle_pause_step(&p.state);
    assert!(!q.state.paused && !q.stop_audio && q.restart_audio);
    assert_eq!(q.state, showing(5));
    let before_first = toggle_pause_step(&PlayerState { paused: true, ..fresh() });
    assert!(!before_first.restart_audio);
    let ended = PlayerState { ended: true, ..showing(5) };
    let e = toggle_pause_step(&ended);
    assert_eq!(e.state, ended);
    assert!(!e.stop_audio && !e.restart_audio && !e.restart_clock);
}
