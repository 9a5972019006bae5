use proteus_lib::plan::ShuffleScheduleEntry;
use proteus_lib::shuffle_schedule::{
    current_playback_ms, loop_view, receiver_view, shuffle_crossfade_frames, start_ready,
    tail_take, use_container_buffering, LoopStep, ReceiverStep, ShuffleState, TrackSpawn,
};
use proteus_lib::source_key::ShuffleSource;

fn file(name: &str) -> ShuffleSource {
    ShuffleSource::FilePath(name.to_string())
}

#[test]
fn new_state_numbers_slots() {
    let state = ShuffleState::new(vec![file("a"), file("b")]);
    assert_eq!(state.active_track_keys, vec![0, 1]);
    assert_eq!(state.next_track_key, 2);
    assert_eq!(state.next_event_index, 0);
    assert!(state.fading_tracks.is_empty());
}

#[test]
fn due_events_switch_slots_and_fade_old_tracks() {
    let mut state = ShuffleState::new(vec![file("a"), file("b")]);
    let events = vec![
        ShuffleScheduleEntry { at_ms: 1000, sources: vec![file("a"), file("c")] },
        ShuffleScheduleEntry { at_ms: 2000, sources: vec![file("d"), file("c"), file("x")] },
        ShuffleScheduleEntry { at_ms: 3000, sources: vec![file("e")] },
    ];
    let mut spawns: Vec<TrackSpawn> = Vec::new();
    state.advance_events(&events, 500, 240, &mut spawns);
    assert_eq!(state.next_event_index, 0);
    assert!(spawns.is_empty());

    state.advance_events(&events, 2000, 240, &mut spawns);
    assert_eq!(state.next_event_index, 2);
    assert_eq!(state.active_track_keys, vec![3, 2]);
    assert_eq!(state.next_track_key, 4);
    assert_eq!(state.fading_tracks, vec![(1, 240, 240), (0, 240, 240)]);
    assert_eq!(spawns.len(), 2);
    assert_eq!((spawns[0].slot_index, spawns[0].track_key, spawns[0].at_ms), (1, 2, 1000));
    assert!(matches!(&spawns[0].source, ShuffleSource::FilePath(p) if p == "c"));
    assert_eq!((spawns[1].slot_index, spawns[1].track_key, spawns[1].at_ms), (0, 3, 2000));
    assert!(matches!(&state.active_sources[0], ShuffleSource::FilePath(p) if p == "d"));
}

#[test]
fn crossfade_and_position_arithmetic() {
    assert_eq!(shuffle_crossfade_frames(48_000), 240);
    assert_eq!(shuffle_crossfade_frames(44_100), 221);
    assert_eq!(shuffle_crossfade_frames(0), 1);
    assert_eq!(current_playback_ms(96_000, 48_000), 2000);
    assert_eq!(current_playback_ms(5, 0), 0);
}

#[test]
fn container_buffering_needs_container_tracks_only() {
    let tracks = vec![ShuffleSource::TrackId(1), ShuffleSource::TrackId(2)];
    assert!(use_container_buffering(true, 0, &tracks));
    assert!(!use_container_buffering(false, 0, &tracks));
    assert!(!use_container_buffering(true, 1, &tracks));
    assert!(!use_container_buffering(true, 0, &vec![ShuffleSource::TrackId(1), file("a")]));
}

#[test]
fn loop_view_drops_done_tracks_and_mixes() {
    let buffers = vec![(0_u16, 0_usize), (1, 500), (2, 300), (3, 0)];
    let finished = vec![0_u16, 2];
    let active = vec![1_u16, 2];
    let fading = vec![3_u16];
    let view = loop_view(&buffers, &finished, &active, &fading, 0, true, 400);
    assert_eq!(view.removable, vec![0]);
    assert!(view.all_buffers_full);
    assert!(!view.all_tracks_finished);
    assert_eq!(view.active_min_len, 500);
    assert_eq!(view.finished_min_len, 300);
    assert_eq!(view.active_count, 2);
    assert_eq!(view.step, LoopStep::MixTracks);
    let view = loop_view(&buffers, &finished, &active, &fading, 0, true, 600);
    assert_eq!(view.step, LoopStep::Idle);
    let view = loop_view(&buffers, &finished, &active, &fading, 10, true, 600);
    assert_eq!(view.step, LoopStep::OutputTail);
    let view = loop_view(&vec![], &finished, &vec![], &fading, 0, false, 600);
    assert_eq!(view.step, LoopStep::Exit);
    assert!(start_ready(&buffers, &active, &finished, 400));
    assert!(!start_ready(&buffers, &active, &finished, 600));
    assert_eq!(tail_take(10, 400), 10);
    assert_eq!(tail_take(0, 400), 1);
}

#[test]
fn receiver_view_takes_shortest_buffer() {
    let buffers = vec![(0_u16, 0_usize), (1, 500), (2, 300)];
    let (removable, step) = receiver_view(&buffers, &vec![0], 100);
    assert_eq!(removable, vec![0]);
    assert_eq!(step, ReceiverStep::Mix { per_track: 300, effects: 100 });
    let (_, step) = receiver_view(&vec![(0, 0), (1, 5)], &vec![], 0);
    assert_eq!(step, ReceiverStep::Idle);
    let (removable, step) = receiver_view(&vec![(4, 0)], &vec![4], 0);
    assert_eq!(removable, vec![4]);
    assert_eq!(step, ReceiverStep::Exit);
}
