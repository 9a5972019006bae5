use proteus_lib::backpressure::{
    occupied_samples, DecodeBackpressureInstance, DecodeBackpressureState, RoomDecision,
};
use proteus_lib::source_key::{ShuffleSource, SourceKey};

fn state_with_one_source(buffered: usize, capacity: usize) -> DecodeBackpressureState {
    let mut state = DecodeBackpressureState::default();
    state.instances.push(DecodeBackpressureInstance {
        capacity_samples: capacity,
        buffered_samples: buffered,
        reserved_samples: 0,
        finished: false,
    });
    state.route_instance(SourceKey::from(&ShuffleSource::TrackId(1)), 0);
    state
}

#[test]
fn source_room_status_disallows_when_target_not_available() {
    let state = state_with_one_source(9, 10);
    let status = state.source_room_status(&SourceKey::TrackId(1), 4);
    assert!(!status.allowed);
}

#[test]
fn reserve_source_room_clamps_to_capacity() {
    let mut state = state_with_one_source(0, 8);
    state.reserve_source_room(&SourceKey::TrackId(1), 32);
    assert_eq!(state.instances[0].reserved_samples, 8);
}

#[test]
fn unknown_source_is_always_allowed() {
    let state = state_with_one_source(10, 10);
    assert!(state.source_room_status(&SourceKey::TrackId(7), 4).allowed);
}

#[test]
fn finished_instances_do_not_block() {
    let mut state = state_with_one_source(10, 10);
    assert!(!state.source_room_status(&SourceKey::TrackId(1), 4).allowed);
    assert!(state.on_finished(0));
    assert!(state.source_room_status(&SourceKey::TrackId(1), 4).allowed);
    assert!(!state.on_finished(0));
}

#[test]
fn try_reserve_decides_proceed_wait_abort() {
    let mut state = state_with_one_source(6, 10);
    let key = SourceKey::TrackId(1);
    assert_eq!(state.try_reserve_source_room(&key, 0, true), RoomDecision::Proceed);
    assert_eq!(state.try_reserve_source_room(&key, 4, true), RoomDecision::Abort);
    assert_eq!(state.try_reserve_source_room(&key, 4, false), RoomDecision::Proceed);
    assert_eq!(state.instances[0].reserved_samples, 4);
    assert_eq!(state.try_reserve_source_room(&key, 4, false), RoomDecision::Wait);
    assert!(state.shutdown());
    assert_eq!(state.try_reserve_source_room(&key, 4, false), RoomDecision::Abort);
}

#[test]
fn pushes_and_pops_reconcile_counts() {
    let mut state = state_with_one_source(0, 8);
    state.reserve_source_room(&SourceKey::TrackId(1), 6);
    assert!(state.on_samples_pushed(0, 6, 6, false));
    assert_eq!(state.instances[0].reserved_samples, 0);
    assert_eq!(state.instances[0].buffered_samples, 6);
    assert!(!state.on_samples_pushed(0, 0, 0, false));
    assert!(state.on_samples_popped(0, 4));
    assert_eq!(state.instances[0].buffered_samples, 2);
    assert!(!state.on_samples_popped(0, 0));
    assert!(state.on_samples_pushed(0, 0, 20, true));
    assert_eq!(state.instances[0].buffered_samples, 8);
}

#[test]
fn occupied_samples_caps_at_capacity() {
    let inst = DecodeBackpressureInstance {
        capacity_samples: 5,
        buffered_samples: 4,
        reserved_samples: 3,
        finished: false,
    };
    assert_eq!(occupied_samples(&inst), 5);
}

#[test]
fn startup_priority_favors_sources_below_target() {
    let mut state = DecodeBackpressureState::new();
    for _ in 0..2 {
        state.instances.push(DecodeBackpressureInstance {
            capacity_samples: 100,
            buffered_samples: 0,
            reserved_samples: 0,
            finished: false,
        });
    }
    state.instances[0].buffered_samples = 50;
    state.route_instance(SourceKey::TrackId(1), 0);
    state.route_instance(SourceKey::FilePath("b".to_string()), 1);
    assert!(state.enable_startup_priority(40));
    assert_eq!(state.startup_priority_target_samples, Some(40));
    assert!(!state.source_room_status(&SourceKey::TrackId(1), 10).allowed);
    assert!(state.source_room_status(&SourceKey::FilePath("b".to_string()), 10).allowed);
    assert!(state.disable_startup_priority());
    assert!(state.source_room_status(&SourceKey::TrackId(1), 10).allowed);
}

#[test]
fn waiters_are_counted() {
    let mut state = DecodeBackpressureState::new();
    assert!(!state.has_waiters());
    state.begin_wait();
    assert!(state.has_waiters());
    state.end_wait();
    state.end_wait();
    assert_eq!(state.waiting_threads, 0);
}
