use proteus_lib::player_state::{
    check_playback, requested_state, seek_follow_up, PlayerRequest, PlayerState, SeekFollowUp,
    SinkAction,
};

#[test]
fn pause_request_settles_paused() {
    let state = requested_state(PlayerRequest::Pause);
    assert_eq!(state, PlayerState::Pausing);
    let check = check_playback(state, false);
    assert!(check.keep_running);
    assert_eq!(check.action, SinkAction::FadeOutAndPause);
    assert_eq!(check.next_state, PlayerState::Paused);
    assert!(check.next_state.is_paused());
    assert!(!check.next_state.is_playing());
}

#[test]
fn resume_request_settles_playing() {
    let check = check_playback(requested_state(PlayerRequest::Resume), false);
    assert_eq!(check.action, SinkAction::FadeInAndPlay);
    assert_eq!(check.next_state, PlayerState::Playing);
    assert!(check.next_state.is_playing());
}

#[test]
fn abort_stops_and_clears() {
    let check = check_playback(PlayerState::Playing, true);
    assert!(!check.keep_running);
    assert_eq!(check.action, SinkAction::FadeOutAndClear);
    assert_eq!(check.next_state, PlayerState::Playing);
}

#[test]
fn stop_requests_and_settled_states() {
    assert_eq!(requested_state(PlayerRequest::Kill), PlayerState::Stopping);
    assert_eq!(requested_state(PlayerRequest::Killed), PlayerState::Stopped);
    let check = check_playback(PlayerState::Stopped, false);
    assert_eq!(check.action, SinkAction::Keep);
    assert_eq!(check.next_state, PlayerState::Stopped);
}

#[test]
fn seek_follow_up_depends_on_prior_state() {
    assert_eq!(seek_follow_up(PlayerState::Playing), SeekFollowUp::Resume);
    assert_eq!(seek_follow_up(PlayerState::Paused), SeekFollowUp::Audition);
    assert_eq!(seek_follow_up(PlayerState::Init), SeekFollowUp::Nothing);
}
