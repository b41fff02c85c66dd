//! The decisions of the video player. The caller owns the frame queue, the
//! wall clock and the audio process: on each tick it says whether the next
//! frame is due and how many frame times it is late, polls the queue as often
//! as `frames_wanted` says (stopping at the first poll that gives no frame),
//! and carries out the outcome.
use vstd::prelude::*;

verus! {

/// What the player knows between ticks.
#[derive(Debug, Clone, Copy, PartialEq, Eq, Structural)]
pub struct PlayerState {
    pub paused: bool,
    /// The decoder has finished; no more frames come.
    pub ended: bool,
    /// A frame is shown.
    pub has_frame: bool,
    /// The audio companion was started once.
    pub audio_started: bool,
    /// Frames shown since the first one; the audio position follows it.
    pub presented_frames: u64,
}

/// What one poll of the frame queue gave.
#[derive(Debug, Clone, Copy, PartialEq, Eq, Structural)]
pub enum QueuePoll {
    /// A decoded frame.
    Frame,
    /// Nothing yet.
    Empty,
    /// The decoder is gone.
    Disconnected,
}

/// What a tick comes to.
#[derive(Debug, Clone, Copy, PartialEq, Eq, Structural)]
pub struct TickOutcome {
    pub state: PlayerState,
    /// How many of the polled frames are taken; the last one taken is shown
    /// and the others are dropped.
    pub frames_taken: usize,
    /// Start the audio from the beginning.
    pub start_audio_at_zero: bool,
    /// Stop the audio.
    pub stop_audio: bool,
    /// Start the frame clock now (the first frame arrived); otherwise it
    /// advances by the frames taken.
    pub restart_clock: bool,
    /// Whether what is shown changed.
    pub changed: bool,
}

/// What pausing or resuming comes to.
#[derive(Debug, Clone, Copy, PartialEq, Eq, Structural)]
pub struct PauseToggle {
    pub state: PlayerState,
    /// Stop the audio (on pause).
    pub stop_audio: bool,
    /// Restart the audio at the current position (on resume with a frame shown).
    pub restart_audio: bool,
    /// The next frame is due one frame time from now.
    pub restart_clock: bool,
}

/// The most frames one tick takes: when rendering stalled, enough queued
/// frames to catch up, but never more than 16.
pub open spec fn catch_up_limit(late_frames: int) -> int {
    if late_frames + 1 > 16 {
        16
    } else {
        late_frames + 1
    }
}

/// How many times a tick polls the queue: not at all while paused or before
/// the next frame is due, once while no frame is shown yet, and otherwise
/// up to the catch-up limit.
pub open spec fn wanted(s: PlayerState, due: bool, late_frames: int) -> int {
    if s.paused || !due {
        0
    } else if !s.has_frame {
        1
    } else {
        catch_up_limit(late_frames)
    }
}

/// The number of frames at the front of `polls`, at most `limit`.
pub open spec fn leading_frames(polls: Seq<QueuePoll>, limit: int) -> int
    decreases polls.len(),
{
    if limit <= 0 || polls.len() == 0 || polls[0] != QueuePoll::Frame {
        0
    } else {
        1 + leading_frames(polls.drop_first(), limit - 1)
    }
}

/// Whether, within `limit` polls, the queue reported the decoder gone right
/// after the frames it gave.
pub open spec fn disconnect_seen(polls: Seq<QueuePoll>, limit: int) -> bool {
    let t = leading_frames(polls, limit);
    t < limit && t < polls.len() && polls[t] == QueuePoll::Disconnected
}

/// `a + b`, saturating at `u64::MAX`.
pub open spec fn saturating_add_u64(a: u64, b: int) -> u64 {
    if a + b > u64::MAX {
        u64::MAX
    } else {
        (a + b) as u64
    }
}

/// The outcome of a tick in state `s`, when the next frame is `due` and
/// `late_frames` frame times late, and the queue polls gave `polls`.
pub open spec fn tick(s: PlayerState, due: bool, late_frames: int, polls: Seq<QueuePoll>) -> TickOutcome {
    let limit = wanted(s, due, late_frames);
    let taken = leading_frames(polls, limit);
    let gone = disconnect_seen(polls, limit);
    let first = !s.has_frame && taken > 0;
    TickOutcome {
        state: PlayerState {
            paused: s.paused,
            ended: s.ended || gone,
            has_frame: s.has_frame || taken > 0,
            audio_started: s.audio_started || first,
            presented_frames: if first {
                0
            } else {
                saturating_add_u64(s.presented_frames, taken)
            },
        },
        frames_taken: taken as usize,
        start_audio_at_zero: first && !s.audio_started,
        stop_audio: gone,
        restart_clock: first,
        changed: taken > 0 || (gone && !s.ended),
    }
}

/// The outcome of the pause key in state `s`.
pub open spec fn toggled(s: PlayerState) -> PauseToggle {
    if s.ended {
        PauseToggle { state: s, stop_audio: false, restart_audio: false, restart_clock: false }
    } else {
        PauseToggle {
            state: PlayerState { paused: !s.paused, ..s },
            stop_audio: !s.paused,
            restart_audio: s.paused && s.has_frame,
            restart_clock: true,
        }
    }
}

proof fn lemma_leading_frames(polls: Seq<QueuePoll>, limit: int)
    ensures
        0 <= leading_frames(polls, limit) <= polls.len(),
        limit >= 0 ==> leading_frames(polls, limit) <= limit,
        forall|k: int|
            0 <= k < leading_frames(polls, limit) ==> #[trigger] polls[k] == QueuePoll::Frame,
        leading_frames(polls, limit) < limit && leading_frames(polls, limit) < polls.len()
            ==> polls[leading_frames(polls, limit)] != QueuePoll::Frame,
    decreases polls.len(),
{
    if !(limit <= 0 || polls.len() == 0 || polls[0] != QueuePoll::Frame) {
        let t = polls.drop_first();
        lemma_leading_frames(t, limit - 1);
        assert forall|k: int|
            0 <= k < leading_frames(polls, limit) implies #[trigger] polls[k] == QueuePoll::Frame by {
            if k > 0 {
                assert(polls[k] == t[k - 1]);
            }
        }
        if leading_frames(polls, limit) < limit && leading_frames(polls, limit) < polls.len() {
            assert(polls[leading_frames(polls, limit)] == t[leading_frames(t, limit - 1)]);
        }
    }
}

/// How many times to poll the frame queue this tick.
pub fn frames_wanted(state: &PlayerState, due: bool, late_frames: usize) -> (r: usize)
    ensures
        r == wanted(*state, due, late_frames as int),
{
    if state.paused || !due {
        0
    } else if !state.has_frame {
        1
    } else if late_frames >= 15 {
        16
    } else {
        late_frames + 1
    }
}

/// Decides a tick: the frames taken, the new state, and what to do with the
/// audio, the clock and the picture.
pub fn poll_frame_step(state: &PlayerState, due: bool, late_frames: usize, polls: &[QueuePoll]) -> (r:
    TickOutcome)
    ensures
        r == tick(*state, due, late_frames as int, polls@),
{
    let limit = frames_wanted(state, due, late_frames);
    proof {
        lemma_leading_frames(polls@, limit as int);
    }
    let mut taken: usize = 0;
    let mut gone = false;
    let mut looking = true;
    while looking && taken < limit && taken < polls.len()
        invariant
            taken <= limit,
            taken <= polls.len(),
            limit == wanted(*state, due, late_frames as int),
            forall|k: int| 0 <= k < taken ==> #[trigger] polls@[k] == QueuePoll::Frame,
            0 <= leading_frames(polls@, limit as int) <= polls.len(),
            leading_frames(polls@, limit as int) <= limit,
            forall|k: int|
                0 <= k < leading_frames(polls@, limit as int) ==> #[trigger] polls@[k]
                    == QueuePoll::Frame,
            leading_frames(polls@, limit as int) < limit && leading_frames(polls@, limit as int)
                < polls.len() ==> polls@[leading_frames(polls@, limit as int)] != QueuePoll::Frame,
            looking ==> taken <= leading_frames(polls@, limit as int),
            !looking ==> taken == leading_frames(polls@, limit as int),
            !looking ==> gone == disconnect_seen(polls@, limit as int),
            looking ==> !gone,
        decreases polls.len() - taken + (if looking {
            1int
        } else {
            0
        }),
    {
        match polls[taken] {
            QueuePoll::Frame => {
                taken += 1;
            },
            QueuePoll::Empty => {
                looking = false;
            },
            QueuePoll::Disconnected => {
                gone = true;
                looking = false;
            },
        }
    }
    let ghost t = leading_frames(polls@, limit as int);
    proof {
        if looking {
            if taken < t {
                assert(polls@[taken as int] == QueuePoll::Frame);
            }
        }
    }
    assert(taken == t);
    assert(gone == disconnect_seen(polls@, limit as int));
    let first = !state.has_frame && taken > 0;
    let presented = if first {
        0
    } else if state.presented_frames as u128 + taken as u128 > u64::MAX as u128 {
        u64::MAX
    } else {
        state.presented_frames + taken as u64
    };
    TickOutcome {
        state: PlayerState {
            paused: state.paused,
            ended: state.ended || gone,
            has_frame: state.has_frame || taken > 0,
            audio_started: state.audio_started || first,
            presented_frames: presented,
        },
        frames_taken: taken,
        start_audio_at_zero: first && !state.audio_started,
        stop_audio: gone,
        restart_clock: first,
        changed: taken > 0 || (gone && !state.ended),
    }
}

/// Decides the pause key: an ended video stays as it is; otherwise pausing
/// stops the audio, and resuming restarts it at the current position when a
/// frame is shown.
pub fn toggle_pause_step(state: &PlayerState) -> (r: PauseToggle)
    ensures
        r == toggled(*state),
{
    if state.ended {
        PauseToggle { state: *state, stop_audio: false, restart_audio: false, restart_clock: false }
    } else {
        PauseToggle {
            state: PlayerState { paused: !state.paused, ..*state },
            stop_audio: !state.paused,
            restart_audio: state.paused && state.has_frame,
            restart_clock: true,
        }
    }
}

/// The playback laws: a paused player, or one whose next frame is not due,
/// does nothing; an ended video stays ended; a tick takes at most one frame
/// before the first is shown and at most 16 afterwards, and only frames the
/// queue gave in a row; the audio starts from the beginning exactly when the
/// first frame arrives (once), and stops when the decoder is gone; the picture
/// changes exactly when a frame is taken or the video just ended.
pub proof fn lemma_tick_laws(s: PlayerState, due: bool, late_frames: int, polls: Seq<QueuePoll>)
    requires
        late_frames >= 0,
    ensures
        ({
            let r = tick(s, due, late_frames, polls);
            &&& s.paused || !due ==> r.state == s && r.frames_taken == 0 && !r.changed
                && !r.start_audio_at_zero && !r.stop_audio
            &&& s.ended ==> r.state.ended
            &&& r.state.paused == s.paused
            &&& r.frames_taken <= catch_up_limit(late_frames)
            &&& !s.has_frame ==> r.frames_taken <= 1
            &&& r.frames_taken <= polls.len()
            &&& forall|k: int| 0 <= k < r.frames_taken ==> #[trigger] polls[k] == QueuePoll::Frame
            &&& r.start_audio_at_zero == (!s.has_frame && r.frames_taken == 1 && !s.audio_started)
            &&& r.changed == (r.frames_taken > 0 || (!s.ended && r.state.ended))
            &&& r.state.ended == (s.ended || r.stop_audio)
        }),
{
    let limit = wanted(s, due, late_frames);
    lemma_leading_frames(polls, limit);
}

/// The pause laws: an ended video ignores the key; otherwise the key flips
/// `paused`, a pause stops the audio, a resume with a frame shown restarts
/// it, and pressing twice gives back the state it started from.
pub proof fn lemma_pause_laws(s: PlayerState)
    ensures
        s.ended ==> toggled(s).state == s && !toggled(s).stop_audio && !toggled(s).restart_audio,
        !s.ended ==> toggled(s).state.paused == !s.paused,
        !s.ended && !s.paused ==> toggled(s).stop_audio && !toggled(s).restart_audio,
        !s.ended && s.paused ==> !toggled(s).stop_audio && toggled(s).restart_audio == s.has_frame,
        toggled(toggled(s).state).state == s,
{
}

} // verus!
