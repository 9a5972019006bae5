use proteus_lib::meter_frames::{FrameQueue, MeterFrame};
use proteus_lib::backpressure::DecodeBackpressureState;
use proteus_lib::buffer_mixer::BufferMixer;
use proteus_lib::cover_map::TransitionDirection;
use proteus_lib::mix_runtime::{
    advance_fades, apply_decode_event, decode_worker_counts, fade_chunk_frames, finished_buffering,
    maybe_enable_startup_priority, min_mix_samples, next_batch, output_chunks, partition_sources,
    premix_chunk_samples, ready_batch, start_gate_open, track_buffer_size, DecodeWorkerEvent,
    EffectDrain, DRAIN_SILENCE_EPSILON_BITS, DRAIN_SILENT_PASSES_TO_STOP, MAX_EFFECT_DRAIN_PASSES,
};
use proteus_lib::packet_router::PacketTiming;
use proteus_lib::plan::{ActiveWindow, RuntimeInstanceMeta, RuntimeInstancePlan};
use proteus_lib::premix::PremixBuffer;
use proteus_lib::source_key::{ShuffleSource, SourceKey};

fn check_drain_constants_are_positive() {
    assert!(MAX_EFFECT_DRAIN_PASSES > 0);
    assert!(DRAIN_SILENT_PASSES_TO_STOP > 0);
    assert!(f32::from_bits(DRAIN_SILENCE_EPSILON_BITS) > 0.0);
}

#[test]
fn tests_drain_constants_are_positive() {
    check_drain_constants_are_positive();
}

#[test]
fn mod_drain_constants_are_positive() {
    check_drain_constants_are_positive();
}

#[test]
fn drain_silence_epsilon_is_one_millionth() {
    assert_eq!(f32::from_bits(DRAIN_SILENCE_EPSILON_BITS), 1.0e-6_f32);
}

#[test]
fn effect_drain_stops_after_silent_passes_and_pass_limit() {
    let mut drain = EffectDrain::new();
    assert!(drain.begin_pass());
    assert!(!drain.finish_pass(0, false));
    assert!(drain.finish_pass(8, true));
    assert!(drain.finish_pass(8, false));
    assert!(drain.finish_pass(8, true));
    assert!(!drain.finish_pass(8, true));
    let mut drain = EffectDrain { passes: MAX_EFFECT_DRAIN_PASSES - 1, silent_passes: 0 };
    assert!(drain.begin_pass());
    assert!(!drain.begin_pass());
}

#[test]
fn min_mix_samples_rounds_up_to_batches() {
    assert_eq!(min_mix_samples(48_000, 2, 0), 2880);
    assert_eq!(min_mix_samples(48_000, 2, 1024), 3072);
    assert_eq!(min_mix_samples(10, 2, 0), 2);
}

#[test]
fn track_buffer_size_is_ten_seconds_or_twice_start() {
    assert_eq!(track_buffer_size(48_000, 2, 1000), 960_000);
    assert_eq!(track_buffer_size(10, 0, 1000), 2000);
}

#[test]
fn sources_partition_and_count() {
    let sources = vec![
        SourceKey::TrackId(3),
        SourceKey::FilePath("a".to_string()),
        SourceKey::TrackId(4),
        SourceKey::FilePath("b".to_string()),
    ];
    let (ids, paths) = partition_sources(&sources);
    assert_eq!(ids, vec![3, 4]);
    assert_eq!(paths, vec!["a".to_string(), "b".to_string()]);
    assert_eq!(decode_worker_counts(&sources), (1, 2));
    assert_eq!(decode_worker_counts(&vec![SourceKey::FilePath("c".to_string())]), (0, 1));
}

#[test]
fn startup_priority_needs_files_and_gate() {
    let mut state = DecodeBackpressureState::new();
    assert!(!maybe_enable_startup_priority(&mut state, &Vec::new(), 100));
    assert_eq!(state.startup_priority_target_samples, None);
    assert!(!maybe_enable_startup_priority(&mut state, &vec!["a".to_string()], 0));
    assert!(maybe_enable_startup_priority(&mut state, &vec!["a".to_string()], 100));
    assert_eq!(state.startup_priority_target_samples, Some(100));
}

#[test]
fn finished_buffering_needs_every_key() {
    assert!(finished_buffering(&vec![], &vec![]));
    assert!(finished_buffering(&vec![1, 2], &vec![2, 1, 9]));
    assert!(!finished_buffering(&vec![1, 2], &vec![1]));
    assert!(!finished_buffering(&vec![70_000], &vec![4464]));
}

#[test]
fn batches_fill_and_pad() {
    let mut pending = PremixBuffer::new();
    assert_eq!(ready_batch(&mut pending, 4), None);
    assert_eq!(next_batch(&mut pending, 0, Some(vec![1.0_f32]), false, 0.0), Some(vec![1.0]));
    assert_eq!(next_batch(&mut pending, 4, Some(vec![1.0, 2.0, 3.0]), false, 0.0), None);
    assert_eq!(pending.len(), 3);
    assert_eq!(next_batch(&mut pending, 4, Some(vec![4.0, 5.0]), false, 0.0), Some(vec![1.0, 2.0, 3.0, 4.0]));
    assert_eq!(ready_batch(&mut pending, 1), Some(vec![5.0]));
    pending.push_interleaved(&[6.0]);
    assert_eq!(next_batch(&mut pending, 4, None, false, 0.0), None);
    assert_eq!(next_batch(&mut pending, 4, None, true, 0.0), Some(vec![6.0, 0.0, 0.0, 0.0]));
    assert!(pending.is_empty());
    assert_eq!(next_batch(&mut pending, 4, None, true, 0.0), None);
}

#[test]
fn premix_chunk_respects_events_and_room() {
    assert_eq!(premix_chunk_samples(false, 100, 0, 64, None, 0, 48_000, 2, 1000, 0, 1000), 64);
    assert_eq!(premix_chunk_samples(false, 10, 0, 64, None, 0, 48_000, 2, 1000, 0, 1000), 0);
    assert_eq!(premix_chunk_samples(true, 0, 30, 64, None, 0, 48_000, 2, 1000, 0, 1000), 30);
    assert_eq!(premix_chunk_samples(false, 100, 0, 64, Some(1000), 999, 1000, 2, 1000, 0, 1000), 2);
    assert_eq!(premix_chunk_samples(false, 100, 0, 64, Some(1000), 999, 999, 2, 1000, 0, 1000), 64);
    assert_eq!(premix_chunk_samples(false, 100, 0, 64, None, 0, 48_000, 2, 100, 80, 1000), 20);
    assert_eq!(premix_chunk_samples(false, 100, 0, 64, None, 0, 48_000, 2, 1000, 0, 16), 16);
}

#[test]
fn fades_advance_and_expire() {
    assert_eq!(fade_chunk_frames(128, 2), 64);
    assert_eq!(fade_chunk_frames(1, 2), 1);
    let mut fading = vec![(1_u16, 100_u32, 200_u32), (2, 50, 200), (3, 10, 0), (4, 5, 10)];
    advance_fades(&mut fading, &vec![1, 2, 3], 64);
    assert_eq!(fading, vec![(1, 36, 200), (3, 10, 0), (4, 5, 10)]);
    advance_fades(&mut fading, &vec![], 64);
    assert_eq!(fading, vec![(1, 36, 200), (3, 10, 0), (4, 5, 10)]);
}

fn one_track_plan() -> RuntimeInstancePlan {
    RuntimeInstancePlan {
        logical_track_count: 1,
        instances: vec![RuntimeInstanceMeta {
            instance_id: 0,
            logical_track_index: 0,
            slot_index: 0,
            source_key: ShuffleSource::TrackId(1),
            active_windows: vec![ActiveWindow { start_ms: 0, end_ms: Some(1000) }],
            selection_index: 0,
            occurrence_index: 0,
        }],
        event_boundaries_ms: vec![0],
    }
}

fn keep(samples: Vec<f32>, _d: TransitionDirection, _t: usize) -> Vec<f32> {
    samples
}

#[test]
fn decode_events_route_and_finish() {
    let mut mixer = BufferMixer::new(one_track_plan(), 48_000, 2, 64, 4, 0.0_f32);
    let mut events = Vec::new();
    let packet = DecodeWorkerEvent::Packet {
        source_key: SourceKey::TrackId(1),
        samples: vec![1.0, 1.0, 1.0, 1.0],
        timing: vec![PacketTiming { past_window: false, overlap: vec![(0, 4)] }],
    };
    let decision = apply_decode_event(&mut mixer, packet, &keep, &mut events).expect("a packet is routed");
    assert_eq!(decision.sample_targets_written, vec![0]);
    assert!(start_gate_open(&mixer, 4, 2));
    assert!(!start_gate_open(&mixer, 8, 2));

    let soft = DecodeWorkerEvent::SourceError {
        source_key: SourceKey::TrackId(1),
        recoverable: true,
        message: "glitch".to_string(),
    };
    assert!(apply_decode_event(&mut mixer, soft, &keep, &mut events).is_none());
    assert!(!mixer.instances[0].finished);

    let hard = DecodeWorkerEvent::SourceError {
        source_key: SourceKey::TrackId(1),
        recoverable: false,
        message: "broken".to_string(),
    };
    assert!(apply_decode_event(&mut mixer, hard, &keep, &mut events).is_none());
    assert!(mixer.instances[0].finished);
}

#[test]
fn stream_exhausted_finishes_everything() {
    let mut mixer = BufferMixer::new(one_track_plan(), 48_000, 2, 64, 4, 0.0_f32);
    let mut events = Vec::new();
    assert!(apply_decode_event(&mut mixer, DecodeWorkerEvent::StreamExhausted, &keep, &mut events).is_none());
    assert!(mixer.mix_finished());
    let mut mixer = BufferMixer::new(one_track_plan(), 48_000, 2, 64, 4, 0.0_f32);
    let finished = DecodeWorkerEvent::SourceFinished { source_key: SourceKey::TrackId(1) };
    assert!(apply_decode_event(&mut mixer, finished, &keep, &mut events).is_none());
    assert!(mixer.instances[0].finished);
}

#[test]
fn output_chunks_slice_frame_aligned() {
    assert_eq!(output_chunks(8, 2, Some(4)), vec![(0, 4), (4, 8)]);
    assert_eq!(output_chunks(4, 2, None), vec![(0, 4)]);
    assert_eq!(output_chunks(0, 2, None), Vec::<(usize, usize)>::new());
    assert_eq!(output_chunks(5, 2, Some(1)), vec![(0, 2), (2, 4), (4, 5)]);
}

#[test]
fn meter_frames_advance_through_queued_frames() {
    let mut frames = FrameQueue::new(0u32);
    frames.push(MeterFrame { levels: 1, len_samples: 4 });
    frames.push(MeterFrame { levels: 2, len_samples: 4 });
    frames.advance(1);
    assert_eq!(frames.current, 1);
    assert_eq!(frames.current_frame_remaining, 3);
    frames.advance(5);
    assert_eq!(frames.current, 2);
    assert_eq!(frames.current_frame_remaining, 2);
    frames.advance(10);
    assert_eq!(frames.current, 2);
    assert_eq!(frames.current_frame_remaining, 0);
    assert!(frames.queue.is_empty());
    frames.reset(7);
    assert_eq!(frames.current, 7);
}

#[test]
fn meter_frames_advance_in_pieces_equals_advance_at_once() {
    let build = || {
        let mut frames = FrameQueue::new(0u32);
        frames.push(MeterFrame { levels: 1, len_samples: 4 });
        frames.push(MeterFrame { levels: 2, len_samples: 2 });
        frames.push(MeterFrame { levels: 3, len_samples: 4 });
        frames
    };
    let mut split = build();
    split.advance(3);
    split.advance(4);
    let mut whole = build();
    whole.advance(7);
    assert_eq!(split.current, whole.current);
    assert_eq!(split.current_frame_remaining, whole.current_frame_remaining);
    assert_eq!(split.queue.len(), whole.queue.len());
    assert_eq!(whole.current, 3);
    assert_eq!(whole.current_frame_remaining, 3);
}

#[test]
fn partition_sources_lists_each_id_and_path_once() {
    let sources = vec![
        SourceKey::TrackId(1),
        SourceKey::FilePath("a".to_string()),
        SourceKey::TrackId(1),
        SourceKey::FilePath("a".to_string()),
        SourceKey::TrackId(2),
    ];
    let (ids, paths) = partition_sources(&sources);
    assert_eq!(ids, vec![1, 2]);
    assert_eq!(paths, vec!["a".to_string()]);
}

#[test]
fn effect_drain_grants_at_most_the_pass_limit() {
    let mut drain = EffectDrain::new();
    let mut granted = 0;
    for _ in 0..(MAX_EFFECT_DRAIN_PASSES + 10) {
        if drain.begin_pass() {
            granted += 1;
        }
    }
    assert_eq!(granted, MAX_EFFECT_DRAIN_PASSES);
    assert!(!drain.begin_pass());
}
