use proteus_lib::backpressure::DecodeBackpressureState;
use proteus_lib::buffer_mixer::{window_end_samples, window_start_samples, BackpressureEvent, BufferMixer, MixChunk};
use proteus_lib::cover_map::TransitionDirection;
use proteus_lib::packet_router::PacketTiming;
use proteus_lib::plan::{ActiveWindow, RuntimeInstanceMeta, RuntimeInstancePlan};
use proteus_lib::routing::FillState;
use proteus_lib::source_key::{ShuffleSource, SourceKey};

/// A two-track runtime plan: one instance per track, each active 0..1000 ms.
fn simple_plan() -> RuntimeInstancePlan {
    RuntimeInstancePlan {
        logical_track_count: 2,
        instances: vec![
            RuntimeInstanceMeta {
                instance_id: 0,
                logical_track_index: 0,
                slot_index: 0,
                source_key: ShuffleSource::TrackId(1),
                active_windows: vec![ActiveWindow { start_ms: 0, end_ms: Some(1000) }],
                selection_index: 0,
                occurrence_index: 0,
            },
            RuntimeInstanceMeta {
                instance_id: 1,
                logical_track_index: 1,
                slot_index: 1,
                source_key: ShuffleSource::TrackId(2),
                active_windows: vec![ActiveWindow { start_ms: 0, end_ms: Some(1000) }],
                selection_index: 0,
                occurrence_index: 0,
            },
        ],
        event_boundaries_ms: vec![0],
    }
}

/// No fade: transitions pass through unchanged.
fn no_fade(samples: Vec<f32>, _direction: TransitionDirection, _transition: usize) -> Vec<f32> {
    samples
}

/// Timing of a packet starting at 0 s for every instance of `mixer`: the
/// instances active from 0 ms see the whole packet inside their window.
fn timing_at_zero(mixer: &BufferMixer<f32>, samples: usize) -> Vec<PacketTiming> {
    mixer
        .instances
        .iter()
        .map(|inst| {
            let starts_at_zero = inst.meta.active_windows.first().map(|w| w.start_ms == 0).unwrap_or(false);
            PacketTiming {
                past_window: false,
                overlap: if starts_at_zero { vec![(0, samples)] } else { Vec::new() },
            }
        })
        .collect()
}

fn route(mixer: &mut BufferMixer<f32>, samples: &[f32], source: SourceKey) -> proteus_lib::packet_router::RouteDecision {
    let timing = timing_at_zero(mixer, samples.len());
    let mut events = Vec::new();
    mixer.route_packet(samples, source, &timing, &no_fade, &mut events)
}

/// Sum the instances of each logical track, then average the tracks.
fn mixed(mixer: &BufferMixer<f32>, chunk: &MixChunk<f32>) -> Vec<f32> {
    let mut out = vec![0.0_f32; chunk.sample_count];
    let tracks = mixer.track_instances.len();
    for list in &mixer.track_instances {
        let mut track = vec![0.0_f32; chunk.sample_count];
        for &i in list {
            for (k, v) in chunk.instance_samples[i].iter().enumerate() {
                track[k] += *v;
            }
        }
        for k in 0..out.len() {
            out[k] += track[k] / tracks as f32;
        }
    }
    out
}

fn check_route_packet_targets_and_zero_fills_instances() {
    let mut mixer = BufferMixer::new(simple_plan(), 48_000, 2, 8, 4, 0.0_f32);
    let decision = route(&mut mixer, &[1.0, 1.0, 0.5, 0.5], SourceKey::TrackId(1));
    assert_eq!(decision.sample_targets_written, vec![0]);
    assert!(decision.zero_fill_targets_written.is_empty());
    assert!(!decision.ignored);
}

#[test]
fn buffer_mixer_route_packet_targets_and_zero_fills_instances() {
    check_route_packet_targets_and_zero_fills_instances();
}

#[test]
fn tests_route_packet_targets_and_zero_fills_instances() {
    check_route_packet_targets_and_zero_fills_instances();
}

fn check_readiness_and_take_samples_are_synchronized() {
    let mut mixer = BufferMixer::new(simple_plan(), 48_000, 2, 16, 4, 0.0_f32);
    let mut events: Vec<BackpressureEvent> = Vec::new();

    route(&mut mixer, &[1.0, 1.0, 1.0, 1.0], SourceKey::TrackId(1));
    assert!(!mixer.mix_ready());
    assert!(mixer.take_samples(false, &mut events).is_none());

    route(&mut mixer, &[0.5, 0.5, 0.5, 0.5], SourceKey::TrackId(2));
    assert!(mixer.mix_ready());

    let chunk = mixer.take_samples(false, &mut events).expect("mixed samples");
    let out = mixed(&mixer, &chunk);
    assert_eq!(out.len(), 4);
    assert_eq!(out, vec![0.75, 0.75, 0.75, 0.75]);
}

#[test]
fn buffer_mixer_readiness_and_take_samples_are_synchronized() {
    check_readiness_and_take_samples_are_synchronized();
}

#[test]
fn tests_readiness_and_take_samples_are_synchronized() {
    check_readiness_and_take_samples_are_synchronized();
}

fn check_signal_finish_propagates_track_and_mix_finished() {
    let mut mixer = BufferMixer::new(simple_plan(), 48_000, 2, 8, 4, 0.0_f32);
    let mut events = Vec::new();
    mixer.signal_finish(&SourceKey::TrackId(1), &mut events);
    assert!(mixer.track_finished(0));
    assert!(!mixer.mix_finished());

    mixer.signal_finish(&SourceKey::TrackId(2), &mut events);
    assert!(mixer.track_finished(1));
    assert!(mixer.mix_finished());
}

#[test]
fn buffer_mixer_signal_finish_propagates_track_and_mix_finished() {
    check_signal_finish_propagates_track_and_mix_finished();
}

#[test]
fn tests_signal_finish_propagates_track_and_mix_finished() {
    check_signal_finish_propagates_track_and_mix_finished();
}

fn check_fill_state_aggregates_as_expected() {
    let mut mixer = BufferMixer::new(simple_plan(), 48_000, 2, 2, 4, 0.0_f32);
    assert_eq!(mixer.mix_fill_state(), FillState::NotFull);

    let _ = route(&mut mixer, &[1.0, 1.0, 1.0, 1.0], SourceKey::TrackId(1));
    assert!(matches!(mixer.mix_fill_state(), FillState::Partial | FillState::Full));
}

#[test]
fn buffer_mixer_fill_state_aggregates_as_expected() {
    check_fill_state_aggregates_as_expected();
}

#[test]
fn tests_fill_state_aggregates_as_expected() {
    check_fill_state_aggregates_as_expected();
}

fn check_route_packet_zero_fills_when_packet_is_before_window_start() {
    let plan = RuntimeInstancePlan {
        logical_track_count: 1,
        instances: vec![RuntimeInstanceMeta {
            instance_id: 0,
            logical_track_index: 0,
            slot_index: 0,
            source_key: ShuffleSource::TrackId(1),
            active_windows: vec![ActiveWindow { start_ms: 1000, end_ms: Some(2000) }],
            selection_index: 0,
            occurrence_index: 0,
        }],
        event_boundaries_ms: vec![0, 1000],
    };
    let mut mixer = BufferMixer::new(plan, 48_000, 2, 16, 4, 0.0_f32);

    let decision = route(&mut mixer, &[1.0, 1.0, 1.0, 1.0], SourceKey::TrackId(1));
    assert!(decision.sample_targets_written.is_empty());
    assert_eq!(decision.zero_fill_targets_written, vec![0]);
    assert!(mixer.mix_ready());

    let mut events = Vec::new();
    let chunk = mixer.take_samples(false, &mut events).expect("zero-filled samples");
    assert_eq!(mixed(&mixer, &chunk), vec![0.0, 0.0, 0.0, 0.0]);
}

#[test]
fn buffer_mixer_route_packet_zero_fills_when_packet_is_before_window_start() {
    check_route_packet_zero_fills_when_packet_is_before_window_start();
}

#[test]
fn tests_route_packet_zero_fills_when_packet_is_before_window_start() {
    check_route_packet_zero_fills_when_packet_is_before_window_start();
}

#[test]
fn new_groups_instances_by_logical_track() {
    let mixer = BufferMixer::new(simple_plan(), 0, 0, 0, 0, 0.0_f32);
    assert_eq!(mixer.instance_count(), 2);
    assert_eq!(mixer.logical_track_count(), 2);
    assert_eq!(mixer.track_instances, vec![vec![0], vec![1]]);
    assert_eq!(mixer.sample_rate, 1);
    assert_eq!(mixer.channels, 1);
    assert_eq!(mixer.mix_chunk_samples, 1);
    assert_eq!(mixer.crossfade_ms, 2);
    assert_eq!(mixer.instances[0].buffer_capacity_samples, 1);
    assert_eq!(mixer.logical_track_for_slot(1), Some(1));
    assert_eq!(mixer.logical_track_for_slot(7), None);
}

#[test]
fn route_packet_shorter_than_a_frame_is_ignored() {
    let mut mixer = BufferMixer::new(simple_plan(), 48_000, 2, 8, 4, 0.0_f32);
    let decision = route(&mut mixer, &[1.0], SourceKey::TrackId(1));
    assert!(decision.ignored);
    assert!(decision.sample_targets_written.is_empty());
    assert_eq!(mixer.instance_buffer_fills(), vec![(0, 0), (1, 0)]);
}

#[test]
fn route_packet_past_window_finishes_instance() {
    let mut mixer = BufferMixer::new(simple_plan(), 48_000, 2, 8, 4, 0.0_f32);
    let timing = vec![
        PacketTiming { past_window: true, overlap: Vec::new() },
        PacketTiming { past_window: false, overlap: Vec::new() },
    ];
    let mut events = Vec::new();
    let decision = mixer.route_packet(&[1.0, 1.0], SourceKey::TrackId(1), &timing, &no_fade, &mut events);
    assert!(decision.ignored);
    assert!(mixer.instances[0].finished);
    assert!(!mixer.instances[1].finished);
    assert_eq!(events, vec![BackpressureEvent::Finished { instance_index: 0 }]);
}

#[test]
fn route_packet_truncates_to_capacity_and_reports_push() {
    let mut mixer = BufferMixer::new(simple_plan(), 48_000, 2, 2, 4, 0.0_f32);
    let timing = timing_at_zero(&mixer, 4);
    let mut events = Vec::new();
    mixer.route_packet(&[1.0, 2.0, 3.0, 4.0], SourceKey::TrackId(1), &timing, &no_fade, &mut events);
    assert_eq!(events, vec![BackpressureEvent::Pushed { instance_index: 0, attempted: 4, pushed: 2, full: true }]);
    assert!(mixer.instances[0].full);
    assert_eq!(mixer.counters()[0], (0, 2, 0, None));
    assert_eq!(mixer.tracks_fill_state(), vec![FillState::Full, FillState::NotFull]);
    assert_eq!(mixer.track_fill_state(0), FillState::Full);
    assert_eq!(mixer.track_fill_state(9), FillState::NotFull);
}

#[test]
fn route_packet_fades_window_edges() {
    // One instance active from 0 ms; a 400-frame mono packet at 48 kHz
    // with the window covering samples 100..300: fades of 96 samples
    // (2 ms) surround the overlap.
    let plan = RuntimeInstancePlan {
        logical_track_count: 1,
        instances: vec![RuntimeInstanceMeta {
            instance_id: 5,
            logical_track_index: 0,
            slot_index: 0,
            source_key: ShuffleSource::FilePath("a.wav".to_string()),
            active_windows: vec![ActiveWindow { start_ms: 0, end_ms: None }],
            selection_index: 0,
            occurrence_index: 0,
        }],
        event_boundaries_ms: vec![0],
    };
    let mut mixer = BufferMixer::new(plan, 48_000, 1, 1000, 400, 0.0_f32);
    let samples = vec![1.0_f32; 400];
    let timing = vec![PacketTiming { past_window: false, overlap: vec![(100, 300)] }];
    let mut events = Vec::new();
    let halve = |s: Vec<f32>, _d: TransitionDirection, _t: usize| -> Vec<f32> { s.iter().map(|v| v * 0.5).collect() };
    let decision = mixer.route_packet(&samples, SourceKey::FilePath("a.wav".to_string()), &timing, &halve, &mut events);
    assert_eq!(decision.sample_targets_written, vec![5]);
    assert_eq!(decision.zero_fill_targets_written, vec![5]);
    let chunk = mixer.take_samples(false, &mut events).expect("a full chunk");
    let out = &chunk.instance_samples[0];
    assert_eq!(out.len(), 400);
    assert_eq!(out[0], 0.0);
    assert_eq!(out[51], 0.0);
    assert_eq!(out[52], 0.5);
    assert_eq!(out[147], 0.5);
    assert_eq!(out[148], 1.0);
    assert_eq!(out[251], 1.0);
    assert_eq!(out[252], 0.5);
    assert_eq!(out[347], 0.5);
    assert_eq!(out[348], 0.0);
}

#[test]
fn take_samples_waits_for_full_chunk_unless_workers_wait() {
    let mut mixer = BufferMixer::new(simple_plan(), 48_000, 2, 16, 8, 0.0_f32);
    route(&mut mixer, &[1.0, 1.0], SourceKey::TrackId(1));
    route(&mut mixer, &[1.0, 1.0], SourceKey::TrackId(2));
    let mut events = Vec::new();
    assert!(mixer.take_samples(false, &mut events).is_none());
    let chunk = mixer.take_samples(true, &mut events).expect("partial chunk for waiting workers");
    assert_eq!(chunk.sample_count, 2);
    assert_eq!(mixer.consumed_samples, 2);
    assert_eq!(
        events,
        vec![
            BackpressureEvent::Popped { instance_index: 0, popped: 2 },
            BackpressureEvent::Popped { instance_index: 1, popped: 2 },
        ]
    );
}

#[test]
fn finished_instances_and_sources_are_reported() {
    let mut plan = simple_plan();
    plan.instances[1].source_key = ShuffleSource::TrackId(1);
    let mut mixer = BufferMixer::new(plan, 48_000, 2, 8, 4, 0.0_f32);
    let sources = mixer.sources();
    assert_eq!(sources.len(), 1);
    assert!(matches!(sources[0], SourceKey::TrackId(1)));
    let mut events = Vec::new();
    mixer.signal_finish_all(&mut events);
    assert_eq!(mixer.finished_instance_count(), 2);
    assert_eq!(mixer.counters()[1], (1, 0, 0, Some(0)));
    assert_eq!(
        events,
        vec![BackpressureEvent::Finished { instance_index: 0 }, BackpressureEvent::Finished { instance_index: 1 }]
    );
}

#[test]
fn backpressure_state_mirrors_mixer_instances() {
    let mut mixer = BufferMixer::new(simple_plan(), 48_000, 2, 8, 4, 0.0_f32);
    let mut state = DecodeBackpressureState::from_instances(&mixer.instances);
    assert_eq!(state.instances.len(), 2);
    assert_eq!(state.instances[0].capacity_samples, 8);
    let timing = timing_at_zero(&mixer, 4);
    let mut events = Vec::new();
    mixer.route_packet(&[1.0, 1.0, 1.0, 1.0], SourceKey::TrackId(1), &timing, &no_fade, &mut events);
    for e in events.drain(..) {
        state.apply_event(e);
    }
    assert_eq!(state.instances[0].buffered_samples, 4);
    assert!(!state.source_room_status(&SourceKey::TrackId(1), 8).allowed);
    assert!(state.source_room_status(&SourceKey::TrackId(1), 4).allowed);
}

#[test]
fn chunk_takes_the_same_count_from_every_buffered_instance() {
    let mut mixer = BufferMixer::new(simple_plan(), 48_000, 2, 16, 4, 0.0_f32);
    route(&mut mixer, &[1.0, 1.0, 1.0, 1.0, 1.0, 1.0], SourceKey::TrackId(1));
    route(&mut mixer, &[0.5, 0.5, 0.5, 0.5], SourceKey::TrackId(2));
    let mut events = Vec::new();
    let chunk = mixer.take_samples(false, &mut events).expect("a full chunk");
    assert_eq!(chunk.sample_count, 4);
    assert_eq!(chunk.instance_samples[0], vec![1.0, 1.0, 1.0, 1.0]);
    assert_eq!(chunk.instance_samples[1], vec![0.5, 0.5, 0.5, 0.5]);
    assert_eq!(mixer.instances[0].buffer.len(), 2);
    assert_eq!(mixer.instances[1].buffer.len(), 0);
}

#[test]
fn window_bounds_in_interleaved_samples() {
    let mut plan = simple_plan();
    plan.instances[0].active_windows = vec![
        ActiveWindow { start_ms: 500, end_ms: Some(750) },
        ActiveWindow { start_ms: 900, end_ms: Some(1000) },
    ];
    let mixer = BufferMixer::new(plan, 48_000, 2, 8, 4, 0.0_f32);
    assert_eq!(window_start_samples(&mixer.instances[0], 48_000, 2), 48_000);
    assert_eq!(window_end_samples(&mixer.instances[0], 48_000, 2), Some(96_000));
}
