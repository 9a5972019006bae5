//! Playback state of a player and the decisions the playback thread makes
//! from it.
//!
//! Control calls only record a request (`Pausing`, `Resuming`,
//! `Stopping`); the playback thread acts on it at its next check, fading the
//! output sink and settling the state (`Paused`, `Playing`).

use vstd::prelude::*;

verus! {

/// Playback state of a player.
#[derive(Debug, Clone, Copy, PartialEq, Eq, Structural)]
pub enum PlayerState {
    Init,
    Resuming,
    Playing,
    Pausing,
    Paused,
    Stopping,
    Stopped,
    Finished,
}

/// A control request made on a player.
#[derive(Debug, Clone, Copy, PartialEq, Eq, Structural)]
pub enum PlayerRequest {
    /// `pause`: fade out and pause at the next check.
    Pause,
    /// `resume`: fade in and play at the next check.
    Resume,
    /// A stop was requested; the playback thread is being aborted.
    Kill,
    /// The playback thread has ended after a stop.
    Killed,
}

/// What the playback thread does to its output sink at one check.
#[derive(Debug, Clone, Copy, PartialEq, Eq, Structural)]
pub enum SinkAction {
    /// Leave the sink as it is.
    Keep,
    /// Fade out, pause and drop everything queued (abort).
    FadeOutAndClear,
    /// Fade out and pause.
    FadeOutAndPause,
    /// Start playing and fade in to the player volume.
    FadeInAndPlay,
}

/// Outcome of one check of the playback thread.
#[derive(Debug, Clone, Copy, PartialEq, Eq, Structural)]
pub struct PlaybackCheck {
    /// False when playback must stop.
    pub keep_running: bool,
    /// What to do to the sink.
    pub action: SinkAction,
    /// The state after the check.
    pub next_state: PlayerState,
}

/// What `seek` does after restarting playback at the new position.
#[derive(Debug, Clone, Copy, PartialEq, Eq, Structural)]
pub enum SeekFollowUp {
    /// Playback was running: resume it.
    Resume,
    /// Playback was paused: play a short audition of the new position.
    Audition,
    /// Nothing more.
    Nothing,
}

/// The state a request leaves behind.
pub open spec fn spec_requested_state(request: PlayerRequest) -> PlayerState {
    match request {
        PlayerRequest::Pause => PlayerState::Pausing,
        PlayerRequest::Resume => PlayerState::Resuming,
        PlayerRequest::Kill => PlayerState::Stopping,
        PlayerRequest::Killed => PlayerState::Stopped,
    }
}

/// One check of the playback thread in state `state`.
pub open spec fn spec_check_playback(state: PlayerState, abort: bool) -> PlaybackCheck {
    if abort {
        PlaybackCheck { keep_running: false, action: SinkAction::FadeOutAndClear, next_state: state }
    } else if state == PlayerState::Pausing {
        PlaybackCheck { keep_running: true, action: SinkAction::FadeOutAndPause, next_state: PlayerState::Paused }
    } else if state == PlayerState::Resuming {
        PlaybackCheck { keep_running: true, action: SinkAction::FadeInAndPlay, next_state: PlayerState::Playing }
    } else {
        PlaybackCheck { keep_running: true, action: SinkAction::Keep, next_state: state }
    }
}

impl PlayerState {
    /// True when the player is playing.
    pub fn is_playing(&self) -> (r: bool)
        ensures
            r == (*self == PlayerState::Playing),
    {
        match self {
            PlayerState::Playing => true,
            _ => false,
        }
    }

    /// True when the player is paused.
    pub fn is_paused(&self) -> (r: bool)
        ensures
            r == (*self == PlayerState::Paused),
    {
        match self {
            PlayerState::Paused => true,
            _ => false,
        }
    }
}

/// The state recorded by a control request; the request replaces whatever
/// state the player was in.
pub fn requested_state(request: PlayerRequest) -> (r: PlayerState)
    ensures
        r == spec_requested_state(request),
{
    match request {
        PlayerRequest::Pause => PlayerState::Pausing,
        PlayerRequest::Resume => PlayerState::Resuming,
        PlayerRequest::Kill => PlayerState::Stopping,
        PlayerRequest::Killed => PlayerState::Stopped,
    }
}

/// One check of the playback thread: an abort stops playback (clearing the
/// sink, state unchanged); otherwise a pending pause or resume is carried
/// out and settled.
pub fn check_playback(state: PlayerState, abort: bool) -> (r: PlaybackCheck)
    ensures
        r == spec_check_playback(state, abort),
{
    if abort {
        return PlaybackCheck { keep_running: false, action: SinkAction::FadeOutAndClear, next_state: state };
    }
    match state {
        PlayerState::Pausing => PlaybackCheck {
            keep_running: true,
            action: SinkAction::FadeOutAndPause,
            next_state: PlayerState::Paused,
        },
        PlayerState::Resuming => PlaybackCheck {
            keep_running: true,
            action: SinkAction::FadeInAndPlay,
            next_state: PlayerState::Playing,
        },
        _ => PlaybackCheck { keep_running: true, action: SinkAction::Keep, next_state: state },
    }
}

/// What `seek` does once playback has restarted, given the state before the seek.
pub fn seek_follow_up(state: PlayerState) -> (r: SeekFollowUp)
    ensures
        r == (if state == PlayerState::Playing {
            SeekFollowUp::Resume
        } else if state == PlayerState::Paused {
            SeekFollowUp::Audition
        } else {
            SeekFollowUp::Nothing
        }),
{
    match state {
        PlayerState::Playing => SeekFollowUp::Resume,
        PlayerState::Paused => SeekFollowUp::Audition,
        _ => SeekFollowUp::Nothing,
    }
}

/// A pause request is carried out by the next check that is not an abort:
/// the sink fades out and the player ends up paused.
pub proof fn lemma_pause_settles_paused()
    ensures
        spec_check_playback(spec_requested_state(PlayerRequest::Pause), false) == (PlaybackCheck {
            keep_running: true,
            action: SinkAction::FadeOutAndPause,
            next_state: PlayerState::Paused,
        }),
{
}

/// A resume request is carried out by the next check that is not an
/// abort: the sink fades in and the player ends up playing.
pub proof fn lemma_resume_settles_playing()
    ensures
        spec_check_playback(spec_requested_state(PlayerRequest::Resume), false) == (PlaybackCheck {
            keep_running: true,
            action: SinkAction::FadeInAndPlay,
            next_state: PlayerState::Playing,
        }),
{
}

/// An abort stops playback at the next check, whatever the state, and
/// leaves the state as it was.
pub proof fn lemma_abort_stops(state: PlayerState)
    ensures
        !spec_check_playback(state, true).keep_running,
        spec_check_playback(state, true).next_state == state,
{
}

/// Settled states are stable: a check without abort changes nothing.
pub proof fn lemma_settled_states_stable(state: PlayerState)
    requires
        state != PlayerState::Pausing,
        state != PlayerState::Resuming,
    ensures
        spec_check_playback(state, false) == (PlaybackCheck { keep_running: true, action: SinkAction::Keep, next_state: state }),
{
}

} // verus!
