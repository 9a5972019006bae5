//! Capacity-bounded writes into instance buffers, fill-state aggregation
//! and sample/millisecond conversions used by routing decisions.

use vstd::prelude::*;
use vstd::slice::slice_subrange;

use crate::aligned_buffer::AlignedSampleBuffer;

verus! {

/// Aggregate fill state for a track or the whole mix.
#[derive(Debug, Clone, Copy, PartialEq, Eq, Structural)]
pub enum FillState {
    /// Buffers are neither uniformly full nor uniformly not-full.
    Partial,
    /// Every instance currently reports full.
    Full,
    /// No instance currently reports full.
    NotFull,
}

/// Outcome of one capacity-bounded write.
#[derive(Debug, Clone, Copy)]
pub struct PushResult {
    pub written_samples: usize,
    pub wrote_any: bool,
}

/// Room left in a buffer holding `len` samples with the given capacity
/// (a capacity of zero counts as one).
pub open spec fn room(capacity_samples: usize, len: int) -> int {
    let capacity = if capacity_samples == 0 { 1 } else { capacity_samples as int };
    if capacity > len { capacity - len } else { 0 }
}

/// How many of `wanted` samples fit.
pub open spec fn writable(capacity_samples: usize, len: int, wanted: int) -> int {
    if wanted < room(capacity_samples, len) { wanted } else { room(capacity_samples, len) }
}

/// Push borrowed samples into an instance buffer, truncating to capacity.
/// `full_flag` is set exactly when part of `slice` did not fit.
pub fn push_slice<T: Copy>(
    buffer: &mut AlignedSampleBuffer<T>,
    capacity_samples: usize,
    slice: &[T],
    full_flag: &mut bool,
) -> (r: PushResult)
    requires
        old(buffer).wf(),
    ensures
        final(buffer).wf(),
        final(buffer).silence_value() == old(buffer).silence_value(),
        r.written_samples == writable(capacity_samples, old(buffer).view().len() as int, slice@.len() as int),
        r.wrote_any == (r.written_samples > 0),
        final(buffer).view() == old(buffer).view() + slice@.take(r.written_samples as int),
        *final(full_flag) == (r.written_samples < slice@.len()),
{
    let capacity = if capacity_samples == 0 { 1 } else { capacity_samples };
    let len = buffer.len();
    let available = if capacity > len { capacity - len } else { 0 };
    let to_write = if slice.len() < available { slice.len() } else { available };
    let mut result = PushResult { written_samples: 0, wrote_any: false };
    if to_write > 0 {
        let part = slice_subrange(slice, 0, to_write);
        buffer.push_samples_from_slice(part);
        result.wrote_any = true;
        result.written_samples = to_write;
        assert(part@ == slice@.take(to_write as int));
    } else {
        assert(buffer.view() + slice@.take(0) =~= buffer.view());
    }
    *full_flag = to_write < slice.len();
    result
}

/// Push an owned sample vector into an instance buffer, truncating to capacity.
pub fn push_owned_slice<T: Copy>(
    buffer: &mut AlignedSampleBuffer<T>,
    capacity_samples: usize,
    slice: Vec<T>,
    full_flag: &mut bool,
) -> (r: PushResult)
    requires
        old(buffer).wf(),
    ensures
        final(buffer).wf(),
        final(buffer).silence_value() == old(buffer).silence_value(),
        r.written_samples == writable(capacity_samples, old(buffer).view().len() as int, slice@.len() as int),
        r.wrote_any == (r.written_samples > 0),
        final(buffer).view() == old(buffer).view() + slice@.take(r.written_samples as int),
        *final(full_flag) == (r.written_samples < slice@.len()),
{
    let mut slice = slice;
    let ghost input = slice@;
    let input_len = slice.len();
    let capacity = if capacity_samples == 0 { 1 } else { capacity_samples };
    let len = buffer.len();
    let available = if capacity > len { capacity - len } else { 0 };
    let to_write = if input_len < available { input_len } else { available };
    let mut result = PushResult { written_samples: 0, wrote_any: false };
    if to_write > 0 {
        if to_write < input_len {
            slice.truncate(to_write);
        }
        assert(slice@ =~= input.take(to_write as int));
        buffer.push_owned_samples(slice);
        result.wrote_any = true;
        result.written_samples = to_write;
    } else {
        assert(buffer.view() + input.take(0) =~= buffer.view());
    }
    *full_flag = to_write < input_len;
    result
}

/// Push `zero_count` silent samples into an instance buffer, truncating to capacity.
pub fn push_zeros<T: Copy>(
    buffer: &mut AlignedSampleBuffer<T>,
    capacity_samples: usize,
    zero_count: usize,
    full_flag: &mut bool,
) -> (r: PushResult)
    requires
        old(buffer).wf(),
    ensures
        final(buffer).wf(),
        final(buffer).silence_value() == old(buffer).silence_value(),
        r.written_samples == writable(capacity_samples, old(buffer).view().len() as int, zero_count as int),
        r.wrote_any == (r.written_samples > 0),
        final(buffer).view() == old(buffer).view() + Seq::new(
            r.written_samples as nat,
            |i: int| old(buffer).silence_value(),
        ),
        *final(full_flag) == (r.written_samples < zero_count),
{
    let capacity = if capacity_samples == 0 { 1 } else { capacity_samples };
    let len = buffer.len();
    let available = if capacity > len { capacity - len } else { 0 };
    let to_write = if zero_count < available { zero_count } else { available };
    let mut result = PushResult { written_samples: 0, wrote_any: false };
    if to_write > 0 {
        buffer.push_zeros(to_write);
        result.written_samples = to_write;
        result.wrote_any = true;
    } else {
        assert(buffer.view() + Seq::new(0, |i: int| buffer.silence_value()) =~= buffer.view());
    }
    *full_flag = to_write < zero_count;
    result
}

/// The fill state summarising per-instance "full" flags.
pub open spec fn spec_fill_state(states: Seq<bool>) -> FillState {
    if !(exists|i: int| 0 <= i < states.len() && states[i]) {
        FillState::NotFull
    } else if forall|i: int| 0 <= i < states.len() ==> states[i] {
        FillState::Full
    } else {
        FillState::Partial
    }
}

/// Collapse per-instance "full" flags into one aggregate fill state.
pub fn aggregate_fill_state(states: &[bool]) -> (r: FillState)
    ensures
        r == spec_fill_state(states@),
{
    let mut saw = false;
    let mut all_full = true;
    let mut any_full = false;
    let mut i: usize = 0;
    while i < states.len()
        invariant
            i <= states@.len(),
            saw == (i > 0),
            all_full == (forall|k: int| 0 <= k < i ==> states@[k]),
            any_full == (exists|k: int| 0 <= k < i && states@[k]),
        decreases states.len() - i,
    {
        let full = states[i];
        saw = true;
        all_full = all_full && full;
        any_full = any_full || full;
        i = i + 1;
    }
    if !saw || !any_full {
        FillState::NotFull
    } else if all_full {
        FillState::Full
    } else {
        FillState::Partial
    }
}

/// Interleaved sample count to milliseconds: frames over the sample rate,
/// rounded half up, saturating at `u64::MAX`. A rate or channel count of
/// zero counts as one.
pub open spec fn spec_samples_to_ms(samples: usize, sample_rate: u32, channels: usize) -> int {
    let ch: int = if channels == 0 { 1 } else { channels as int };
    let sr: int = if sample_rate == 0 { 1 } else { sample_rate as int };
    let frames: int = samples as int / ch;
    let ms: int = (2000 * frames + sr) / (2 * sr);
    if ms > u64::MAX { u64::MAX as int } else { ms }
}

/// Milliseconds to an interleaved sample count: frames rounded half up,
/// times the channel count, saturating at `usize::MAX`.
pub open spec fn spec_ms_to_samples(ms: u64, sample_rate: u32, channels: usize) -> int {
    let frames: int = (2 * ms as int * sample_rate as int + 1000) / 2000;
    let f: int = if frames > usize::MAX { usize::MAX as int } else { frames };
    if f * channels > usize::MAX { usize::MAX as int } else { f * channels }
}

/// Convert an interleaved sample count to milliseconds.
pub fn samples_to_ms(samples: usize, sample_rate: u32, channels: usize) -> (r: u64)
    ensures
        r == spec_samples_to_ms(samples, sample_rate, channels),
{
    let ch: usize = if channels == 0 { 1 } else { channels };
    let sr: u128 = if sample_rate == 0 { 1 } else { sample_rate as u128 };
    let frames: u128 = (samples / ch) as u128;
    let ms: u128 = (2000 * frames + sr) / (2 * sr);
    if ms > u64::MAX as u128 { u64::MAX } else { ms as u64 }
}

/// Convert milliseconds to an interleaved sample count.
pub fn ms_to_samples(ms: u64, sample_rate: u32, channels: usize) -> (r: usize)
    ensures
        r == spec_ms_to_samples(ms, sample_rate, channels),
{
    let a: u128 = ms as u128;
    let b: u128 = sample_rate as u128;
    assert(2 * a * b <= 0x2_0000_0000_0000_0000_0000_0000) by (nonlinear_arith)
        requires
            a <= 0xffff_ffff_ffff_ffff,
            b <= 0xffff_ffff,
    ;
    let prod: u128 = 2 * a * b;
    let frames: u128 = (prod + 1000) / 2000;
    let f: usize = if frames > usize::MAX as u128 { usize::MAX } else { frames as usize };
    let fa: u128 = f as u128;
    let ca: u128 = channels as u128;
    assert(fa * ca <= 0xffff_ffff_ffff_ffff * 0xffff_ffff_ffff_ffff) by (nonlinear_arith)
        requires
            fa <= 0xffff_ffff_ffff_ffff,
            ca <= 0xffff_ffff_ffff_ffff,
    ;
    let total: u128 = fa * ca;
    if total > usize::MAX as u128 { usize::MAX } else { total as usize }
}

} // verus!
