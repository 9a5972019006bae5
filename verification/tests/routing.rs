use proteus_lib::aligned_buffer::AlignedSampleBuffer;
use proteus_lib::routing::{
    aggregate_fill_state, ms_to_samples, push_owned_slice, push_slice, push_zeros, samples_to_ms,
    FillState,
};

#[test]
fn samples_to_ms_converts_interleaved_counts() {
    assert_eq!(samples_to_ms(96_000, 48_000, 2), 1000);
}

#[test]
fn samples_to_ms_rounds_half_up_and_sanitizes() {
    assert_eq!(samples_to_ms(3, 2000, 1), 2);
    assert_eq!(samples_to_ms(1, 2000, 1), 1);
    assert_eq!(samples_to_ms(10, 0, 0), 10_000);
}

#[test]
fn ms_to_samples_converts_to_interleaved_counts() {
    assert_eq!(ms_to_samples(1000, 48_000, 2), 96_000);
    assert_eq!(ms_to_samples(2, 44_100, 2), 176);
    assert_eq!(ms_to_samples(1, 44_100, 1), 44);
}

#[test]
fn aggregate_fill_state_cases() {
    assert_eq!(aggregate_fill_state(&[]), FillState::NotFull);
    assert_eq!(aggregate_fill_state(&[false, false]), FillState::NotFull);
    assert_eq!(aggregate_fill_state(&[true, true]), FillState::Full);
    assert_eq!(aggregate_fill_state(&[true, false]), FillState::Partial);
}

#[test]
fn pushes_truncate_to_capacity() {
    let mut buffer = AlignedSampleBuffer::with_capacity(4, 0.0_f32);
    let mut full = false;
    let r = push_slice(&mut buffer, 3, &[1.0, 2.0], &mut full);
    assert_eq!(r.written_samples, 2);
    assert!(r.wrote_any);
    assert!(!full);
    let r = push_zeros(&mut buffer, 3, 5, &mut full);
    assert_eq!(r.written_samples, 1);
    assert!(full);
    let r = push_owned_slice(&mut buffer, 3, vec![9.0], &mut full);
    assert_eq!(r.written_samples, 0);
    assert!(!r.wrote_any);
    assert!(full);
    assert_eq!(buffer.len(), 3);
    assert_eq!(buffer.pop_front(), Some(1.0));
    assert_eq!(buffer.pop_front(), Some(2.0));
    assert_eq!(buffer.pop_front(), Some(0.0));
    assert_eq!(buffer.pop_front(), None);
}

#[test]
fn zero_capacity_counts_as_one() {
    let mut buffer = AlignedSampleBuffer::with_capacity(0, 7_i32);
    let mut full = false;
    let r = push_zeros(&mut buffer, 0, 3, &mut full);
    assert_eq!(r.written_samples, 1);
    assert!(full);
    assert_eq!(buffer.pop_front(), Some(7));
}
