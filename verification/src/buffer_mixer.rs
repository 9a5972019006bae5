//! Schedule-driven source router and logical-track mixer.
//!
//! The mixer owns one aligned buffer per runtime instance. Decoded packets
//! are routed into the instances of their source (real samples inside the
//! active windows, silence outside, fades at the edges), and synchronized
//! chunks are taken across all logical tracks. The sample arithmetic of the
//! final mix (summing, gain and pan) is left to the caller: this module
//! hands out, per logical track, the samples each instance contributes.
//!
//! Room accounting is shared with decode workers through
//! [`DecodeBackpressureState`]; the mixer reports what it pushed, popped and
//! finished as [`BackpressureEvent`]s for the caller to apply.

use vstd::prelude::*;

use crate::aligned_buffer::AlignedSampleBuffer;
use crate::backpressure::{cap1, DecodeBackpressureInstance, DecodeBackpressureState, in_list};
use crate::plan::{RuntimeInstanceMeta, RuntimeInstancePlan};
use crate::routing::{aggregate_fill_state, ms_to_samples, samples_to_ms, spec_fill_state, spec_ms_to_samples, spec_samples_to_ms, FillState};
use crate::source_key::{SourceKey, SourceKeyView};

verus! {

/// A change of instance room that decode workers must learn about.
#[derive(Debug, Clone, Copy, PartialEq, Eq, Structural)]
pub enum BackpressureEvent {
    /// A routed write attempted `attempted` samples and pushed `pushed`.
    Pushed { instance_index: usize, attempted: usize, pushed: usize, full: bool },
    /// `popped` samples were consumed from an instance.
    Popped { instance_index: usize, popped: usize },
    /// An instance finished and no longer needs room.
    Finished { instance_index: usize },
}

/// Samples taken for one mix step: `sample_count` interleaved samples per
/// logical track, and per instance (by index) the samples it contributes,
/// empty for instances whose windows have fully elapsed.
#[derive(Debug)]
pub struct MixChunk<T> {
    pub sample_count: usize,
    pub instance_samples: Vec<Vec<T>>,
}

/// Buffer and counters of one runtime instance.
#[derive(Debug)]
pub struct BufferInstance<T> {
    pub meta: RuntimeInstanceMeta,
    pub buffer: AlignedSampleBuffer<T>,
    pub buffer_capacity_samples: usize,
    pub full: bool,
    pub finished: bool,
    pub produced_samples: u64,
    pub zero_filled_samples: u64,
    pub eof_reached_ms: Option<u64>,
}

impl RuntimeInstanceMeta {
    /// True when this instance reads from `key`.
    pub fn source_key_matches(&self, key: &SourceKey) -> (r: bool)
        ensures
            r == (self.source_key@ == key@),
    {
        let own = SourceKey::from_shuffle_source(&self.source_key);
        own.same_as(key)
    }
}

impl<T: Copy> BufferInstance<T> {
    /// An empty buffer (capacity at least one) and zeroed counters.
    pub fn new(meta: RuntimeInstanceMeta, capacity_samples: usize, silence: T) -> (r: Self)
        ensures
            r.meta == meta,
            r.buffer.wf(),
            r.buffer.view() == Seq::<T>::empty(),
            r.buffer.silence_value() == silence,
            r.buffer_capacity_samples == (if capacity_samples == 0 { 1 } else { capacity_samples }),
            !r.full,
            !r.finished,
            r.produced_samples == 0,
            r.zero_filled_samples == 0,
            r.eof_reached_ms is None,
    {
        let cap = if capacity_samples == 0 { 1 } else { capacity_samples };
        BufferInstance {
            meta,
            buffer: AlignedSampleBuffer::with_capacity(cap, silence),
            buffer_capacity_samples: cap,
            full: false,
            finished: false,
            produced_samples: 0,
            zero_filled_samples: 0,
            eof_reached_ms: None,
        }
    }
}

/// Interleaved sample offset of the end of an instance's last active window.
pub open spec fn spec_window_end_samples<T>(inst: BufferInstance<T>, sample_rate: u32, channels: usize) -> Option<int> {
    let w = inst.meta.active_windows@;
    if w.len() == 0 {
        None
    } else {
        match w.last().end_ms {
            Some(ms) => Some(spec_ms_to_samples(ms, sample_rate, channels)),
            None => None,
        }
    }
}

/// Interleaved sample offset of the start of an instance's first active
/// window (0 when it has none).
pub fn window_start_samples<T: Copy>(instance: &BufferInstance<T>, sample_rate: u32, channels: usize) -> (r: usize)
    ensures
        r == spec_ms_to_samples(
            if instance.meta.active_windows@.len() == 0 { 0 } else { instance.meta.active_windows@[0].start_ms },
            sample_rate,
            channels,
        ),
{
    let start_ms = if instance.meta.active_windows.len() == 0 { 0 } else { instance.meta.active_windows[0].start_ms };
    ms_to_samples(start_ms, sample_rate, channels)
}

/// Playback has moved past the instance's windows and nothing is buffered.
pub open spec fn spec_fully_past<T: Copy>(inst: BufferInstance<T>, consumed: usize, sample_rate: u32, channels: usize) -> bool {
    match spec_window_end_samples(inst, sample_rate, channels) {
        Some(end) => consumed >= end && inst.buffer.view().len() == 0,
        None => false,
    }
}

/// Convert the final active-window end of an instance into an interleaved sample offset.
pub fn window_end_samples<T: Copy>(instance: &BufferInstance<T>, sample_rate: u32, channels: usize) -> (r: Option<usize>)
    ensures
        match spec_window_end_samples(*instance, sample_rate, channels) {
            Some(e) => r == Some(e as usize),
            None => r is None,
        },
{
    let n = instance.meta.active_windows.len();
    if n == 0 {
        return None;
    }
    match instance.meta.active_windows[n - 1].end_ms {
        Some(ms) => Some(ms_to_samples(ms, sample_rate, channels)),
        None => None,
    }
}

/// True when playback has moved past the instance's windows and no buffered data remains.
pub fn instance_fully_past_window<T: Copy>(
    instance: &BufferInstance<T>,
    consumed_samples: usize,
    sample_rate: u32,
    channels: usize,
) -> (r: bool)
    requires
        instance.buffer.wf(),
    ensures
        r == spec_fully_past(*instance, consumed_samples, sample_rate, channels),
{
    let Some(end_sample) = window_end_samples(instance, sample_rate, channels) else {
        return false;
    };
    consumed_samples >= end_sample && instance.buffer.len() == 0
}

/// Router/mixer over per-instance aligned buffers.
#[derive(Debug)]
pub struct BufferMixer<T> {
    pub sample_rate: u32,
    pub channels: usize,
    pub mix_chunk_samples: usize,
    pub consumed_samples: usize,
    pub instances: Vec<BufferInstance<T>>,
    pub track_instances: Vec<Vec<usize>>,
    pub slot_to_logical: Vec<(usize, usize)>,
    pub crossfade_ms: usize,
}

/// The logical track of the last registration of `slot` (later ones win).
pub open spec fn slot_lookup(s: Seq<(usize, usize)>, slot: usize) -> Option<usize>
    decreases s.len(),
{
    if s.len() == 0 {
        None
    } else if s.last().0 == slot {
        Some(s.last().1)
    } else {
        slot_lookup(s.drop_last(), slot)
    }
}

/// Number of logical tracks: the plan's count, or more when an instance
/// names a higher track.
pub open spec fn spec_track_count(count: usize, metas: Seq<RuntimeInstanceMeta>) -> int
    decreases metas.len(),
{
    if metas.len() == 0 {
        count as int
    } else {
        let m = spec_track_count(count, metas.drop_last());
        if metas.last().logical_track_index >= m { metas.last().logical_track_index + 1 } else { m }
    }
}

/// `s` is strictly increasing.
pub open spec fn strictly_increasing(s: Seq<usize>) -> bool {
    forall|a: int, b: int| 0 <= a < b < s.len() ==> #[trigger] s[a] < #[trigger] s[b]
}

impl<T: Copy> BufferMixer<T> {
    /// Well-formedness: positive format, well-formed buffers, and logical
    /// tracks that list, in increasing order, exactly the instances on them.
    pub open spec fn wf(&self) -> bool {
        &&& self.sample_rate >= 1
        &&& self.channels >= 1
        &&& self.mix_chunk_samples >= 1
        &&& forall|i: int| 0 <= i < self.instances@.len() ==> (#[trigger] self.instances@[i]).buffer.wf()
        &&& forall|t: int| 0 <= t < self.track_instances@.len() ==> strictly_increasing(#[trigger] self.track_instances@[t]@)
        &&& forall|t: int, j: int| 0 <= t < self.track_instances@.len() && 0 <= j < self.track_instances@[t]@.len()
            ==> #[trigger] self.track_instances@[t]@[j] < self.instances@.len()
                && self.instances@[self.track_instances@[t]@[j] as int].meta.logical_track_index == t
        &&& forall|i: int| 0 <= i < self.instances@.len() ==> (#[trigger] self.instances@[i]).meta.logical_track_index
            < self.track_instances@.len() && in_list(self.track_instances@[self.instances@[i].meta.logical_track_index as int]@, i)
    }

    /// Instances of logical track `t` that are ready for `min` samples.
    pub open spec fn spec_track_ready(&self, t: int, min_samples: usize) -> bool {
        0 <= t < self.track_instances@.len() ==> forall|j: int| 0 <= j < self.track_instances@[t]@.len() ==> {
            let inst = #[trigger] self.instances@[self.track_instances@[t]@[j] as int];
            inst.finished || inst.buffer.view().len() >= (if min_samples == 0 { 1 } else { min_samples })
        }
    }

    /// Every instance of logical track `t` is finished or fully elapsed.
    pub open spec fn spec_track_finished(&self, t: int) -> bool {
        0 <= t < self.track_instances@.len() ==> forall|j: int| 0 <= j < self.track_instances@[t]@.len() ==> {
            let inst = #[trigger] self.instances@[self.track_instances@[t]@[j] as int];
            inst.finished || spec_fully_past(inst, self.consumed_samples, self.sample_rate, self.channels)
        }
    }

    pub open spec fn spec_mix_ready(&self, min_samples: usize) -> bool {
        forall|t: int| 0 <= t < self.track_instances@.len() ==> #[trigger] self.spec_track_ready(t, min_samples)
    }

    pub open spec fn spec_mix_finished(&self) -> bool {
        forall|t: int| 0 <= t < self.track_instances@.len() ==> #[trigger] self.spec_track_finished(t)
    }

    /// A finished instance never holds a logical track back: a track all
    /// of whose instances are finished is ready for any minimum, whatever
    /// they still hold.
    pub proof fn lemma_finished_track_ready(&self, t: int, min_samples: usize)
        requires
            self.wf(),
            0 <= t < self.track_instances@.len(),
            forall|j: int| 0 <= j < self.track_instances@[t]@.len()
                ==> (#[trigger] self.instances@[self.track_instances@[t]@[j] as int]).finished,
        ensures
            self.spec_track_ready(t, min_samples),
    {
    }

    /// Readiness depends only on how much the unfinished instances hold:
    /// two mixers with the same tracks and finished flags, whose unfinished
    /// instances hold the same number of samples, are ready alike; and an
    /// unfinished instance short of the minimum makes the mix not ready.
    pub proof fn lemma_ready_ignores_finished(a: &Self, b: &Self, min_samples: usize)
        requires
            a.wf(),
            b.wf(),
            a.track_instances@ == b.track_instances@,
            a.instances@.len() == b.instances@.len(),
            forall|i: int| 0 <= i < a.instances@.len() ==> (#[trigger] a.instances@[i]).finished == b.instances@[i].finished,
            forall|i: int| 0 <= i < a.instances@.len() && !(#[trigger] a.instances@[i]).finished
                ==> a.instances@[i].buffer.view().len() == b.instances@[i].buffer.view().len(),
        ensures
            a.spec_mix_ready(min_samples) == b.spec_mix_ready(min_samples),
    {
        assert forall|t: int| 0 <= t < a.track_instances@.len() implies
            a.spec_track_ready(t, min_samples) == b.spec_track_ready(t, min_samples) by {
            if a.spec_track_ready(t, min_samples) {
                assert forall|j: int| 0 <= j < b.track_instances@[t]@.len() implies {
                    let inst = #[trigger] b.instances@[b.track_instances@[t]@[j] as int];
                    let need: int = if min_samples == 0 { 1 } else { min_samples as int };
                    inst.finished || need <= inst.buffer.view().len()
                } by {
                    let x = a.track_instances@[t]@[j] as int;
                    assert(a.instances@[x].finished == b.instances@[x].finished);
                }
            }
            if b.spec_track_ready(t, min_samples) {
                assert forall|j: int| 0 <= j < a.track_instances@[t]@.len() implies {
                    let inst = #[trigger] a.instances@[a.track_instances@[t]@[j] as int];
                    let need: int = if min_samples == 0 { 1 } else { min_samples as int };
                    inst.finished || need <= inst.buffer.view().len()
                } by {
                    let x = a.track_instances@[t]@[j] as int;
                    assert(a.instances@[x].finished == b.instances@[x].finished);
                    assert(b.instances@[b.track_instances@[t]@[j] as int].finished
                        || b.instances@[x].buffer.view().len() >= (if min_samples == 0 { 1 } else { min_samples }));
                }
            }
        }
    }

    /// An unfinished instance holding fewer samples than the minimum (at
    /// least one) keeps the mix from being ready.
    pub proof fn lemma_short_instance_not_ready(&self, i: int, min_samples: usize)
        requires
            self.wf(),
            0 <= i < self.instances@.len(),
            !self.instances@[i].finished,
            self.instances@[i].buffer.view().len() < (if min_samples == 0 { 1 } else { min_samples }),
        ensures
            !self.spec_mix_ready(min_samples),
    {
        let t = self.instances@[i].meta.logical_track_index as int;
        let list = self.track_instances@[t]@;
        assert(in_list(list, i));
        let w = choose|w: int| 0 <= w < list.len() && #[trigger] list[w] == i;
        assert(!self.spec_track_ready(t, min_samples));
    }

    /// True when each instance of the logical track has at least
    /// `min_samples` (at least one) buffered or is finished.
    pub fn track_ready_with_min_samples(&self, logical_track_index: usize, min_samples: usize) -> (r: bool)
        requires
            self.wf(),
        ensures
            r == self.spec_track_ready(logical_track_index as int, min_samples),
    {
        if logical_track_index >= self.track_instances.len() {
            return true;
        }
        let list = &self.track_instances[logical_track_index];
        let min = if min_samples == 0 { 1 } else { min_samples };
        let mut j: usize = 0;
        while j < list.len()
            invariant
                self.wf(),
                logical_track_index < self.track_instances@.len(),
                list@ == self.track_instances@[logical_track_index as int]@,
                min == (if min_samples == 0 { 1 } else { min_samples }),
                j <= list@.len(),
                forall|k: int| 0 <= k < j ==> {
                    let inst = #[trigger] self.instances@[list@[k] as int];
                    inst.finished || inst.buffer.view().len() >= min
                },
            decreases list.len() - j,
        {
            let index = list[j];
            let inst = &self.instances[index];
            if !(inst.finished || inst.buffer.len() >= min) {
                return false;
            }
            j = j + 1;
        }
        true
    }

    /// True when each instance of the logical track has a sample or is finished.
    pub fn track_ready(&self, logical_track_index: usize) -> (r: bool)
        requires
            self.wf(),
        ensures
            r == self.spec_track_ready(logical_track_index as int, 1),
    {
        self.track_ready_with_min_samples(logical_track_index, 1)
    }

    /// True when each instance of the logical track is finished or fully elapsed.
    pub fn track_finished(&self, logical_track_index: usize) -> (r: bool)
        requires
            self.wf(),
        ensures
            r == self.spec_track_finished(logical_track_index as int),
    {
        if logical_track_index >= self.track_instances.len() {
            return true;
        }
        let list = &self.track_instances[logical_track_index];
        let mut j: usize = 0;
        while j < list.len()
            invariant
                self.wf(),
                logical_track_index < self.track_instances@.len(),
                list@ == self.track_instances@[logical_track_index as int]@,
                j <= list@.len(),
                forall|k: int| 0 <= k < j ==> {
                    let inst = #[trigger] self.instances@[list@[k] as int];
                    inst.finished || spec_fully_past(inst, self.consumed_samples, self.sample_rate, self.channels)
                },
            decreases list.len() - j,
        {
            let index = list[j];
            let inst = &self.instances[index];
            if !(inst.finished || instance_fully_past_window(inst, self.consumed_samples, self.sample_rate, self.channels)) {
                return false;
            }
            j = j + 1;
        }
        true
    }

    /// True when all logical tracks are ready for at least `min_samples`.
    pub fn mix_ready_with_min_samples(&self, min_samples: usize) -> (r: bool)
        requires
            self.wf(),
        ensures
            r == self.spec_mix_ready(min_samples),
    {
        let mut t: usize = 0;
        while t < self.track_instances.len()
            invariant
                self.wf(),
                t <= self.track_instances@.len(),
                forall|k: int| 0 <= k < t ==> #[trigger] self.spec_track_ready(k, min_samples),
            decreases self.track_instances.len() - t,
        {
            if !self.track_ready_with_min_samples(t, min_samples) {
                return false;
            }
            t = t + 1;
        }
        true
    }

    /// True when all logical tracks are ready.
    pub fn mix_ready(&self) -> (r: bool)
        requires
            self.wf(),
        ensures
            r == self.spec_mix_ready(1),
    {
        self.mix_ready_with_min_samples(1)
    }

    /// True when all logical tracks are finished.
    pub fn mix_finished(&self) -> (r: bool)
        requires
            self.wf(),
        ensures
            r == self.spec_mix_finished(),
    {
        let mut t: usize = 0;
        while t < self.track_instances.len()
            invariant
                self.wf(),
                t <= self.track_instances@.len(),
                forall|k: int| 0 <= k < t ==> #[trigger] self.spec_track_finished(k),
            decreases self.track_instances.len() - t,
        {
            if !self.track_finished(t) {
                return false;
            }
            t = t + 1;
        }
        true
    }

    /// Number of concrete instances in the mixer.
    pub fn instance_count(&self) -> (r: usize)
        ensures
            r == self.instances@.len(),
    {
        self.instances.len()
    }

    /// Number of logical tracks.
    pub fn logical_track_count(&self) -> (r: usize)
        ensures
            r == self.track_instances@.len(),
    {
        self.track_instances.len()
    }

    /// The logical track a slot index maps to.
    pub fn logical_track_for_slot(&self, slot_index: usize) -> (r: Option<usize>)
        ensures
            r == slot_lookup(self.slot_to_logical@, slot_index),
    {
        let mut k: usize = self.slot_to_logical.len();
        assert(self.slot_to_logical@.take(k as int) == self.slot_to_logical@);
        while k > 0
            invariant
                k <= self.slot_to_logical@.len(),
                slot_lookup(self.slot_to_logical@, slot_index) == slot_lookup(self.slot_to_logical@.take(k as int), slot_index),
            decreases k,
        {
            let (slot, logical) = self.slot_to_logical[k - 1];
            proof {
                let tk = self.slot_to_logical@.take(k as int);
                assert(tk.drop_last() == self.slot_to_logical@.take(k - 1));
                assert(tk.last() == (slot, logical));
            }
            if slot == slot_index {
                return Some(logical);
            }
            k = k - 1;
        }
        assert(self.slot_to_logical@.take(0) =~= Seq::<(usize, usize)>::empty());
        None
    }

    /// Instances of `logical_track` among `instances`, in increasing order.
    fn collect_track(instances: &Vec<BufferInstance<T>>, logical_track: usize) -> (r: Vec<usize>)
        ensures
            strictly_increasing(r@),
            forall|j: int| 0 <= j < r@.len() ==> #[trigger] r@[j] < instances@.len()
                && instances@[r@[j] as int].meta.logical_track_index == logical_track,
            forall|i: int| 0 <= i < instances@.len() && (#[trigger] instances@[i]).meta.logical_track_index
                == logical_track ==> in_list(r@, i),
    {
        let mut r: Vec<usize> = Vec::new();
        let mut i: usize = 0;
        while i < instances.len()
            invariant
                i <= instances@.len(),
                strictly_increasing(r@),
                forall|j: int| 0 <= j < r@.len() ==> #[trigger] r@[j] < i
                    && instances@[r@[j] as int].meta.logical_track_index == logical_track,
                forall|k: int| 0 <= k < i && (#[trigger] instances@[k]).meta.logical_track_index
                    == logical_track ==> in_list(r@, k),
            decreases instances.len() - i,
        {
            if instances[i].meta.logical_track_index == logical_track {
                let ghost before = r@;
                r.push(i);
                proof {
                    assert forall|k: int| 0 <= k < i + 1 && (#[trigger] instances@[k]).meta.logical_track_index
                        == logical_track implies in_list(r@, k) by {
                        if k < i {
                            let w = choose|w: int| 0 <= w < before.len() && #[trigger] before[w] == k;
                            assert(r@[w] == k);
                        } else {
                            assert(r@[before.len() as int] == k);
                        }
                    }
                }
            } else {
                proof {
                    assert forall|k: int| 0 <= k < i + 1 && (#[trigger] instances@[k]).meta.logical_track_index
                        == logical_track implies in_list(r@, k) by {
                        if k == i {
                            assert(false);
                        }
                    }
                }
            }
            i = i + 1;
        }
        r
    }

    /// Create a mixer for a runtime instance plan. Instance buffers hold at
    /// most `capacity_samples` (at least one) samples and yield `silence`
    /// for silent spans; chunks are taken `mix_chunk_samples` at a time.
    pub fn new(
        plan: RuntimeInstancePlan,
        sample_rate: u32,
        channels: usize,
        capacity_samples: usize,
        mix_chunk_samples: usize,
        silence: T,
    ) -> (r: Self)
        requires
            forall|i: int| 0 <= i < plan.instances@.len() ==> (#[trigger] plan.instances@[i]).logical_track_index < usize::MAX,
        ensures
            r.wf(),
            r.sample_rate == (if sample_rate == 0 { 1 } else { sample_rate }),
            r.channels == (if channels == 0 { 1 } else { channels }),
            r.mix_chunk_samples == (if mix_chunk_samples == 0 { 1 } else { mix_chunk_samples }),
            r.consumed_samples == 0,
            r.crossfade_ms == 2,
            r.instances@.len() == plan.instances@.len(),
            forall|i: int| 0 <= i < r.instances@.len() ==> {
                let inst = #[trigger] r.instances@[i];
                &&& inst.meta == plan.instances@[i]
                &&& inst.buffer.view() == Seq::<T>::empty()
                &&& inst.buffer.silence_value() == silence
                &&& inst.buffer_capacity_samples == (if capacity_samples == 0 { 1 } else { capacity_samples })
                &&& !inst.full && !inst.finished
                &&& inst.produced_samples == 0 && inst.zero_filled_samples == 0
                &&& inst.eof_reached_ms is None
            },
            r.track_instances@.len() == spec_track_count(plan.logical_track_count, plan.instances@),
            r.slot_to_logical@.len() == plan.instances@.len(),
            forall|i: int| 0 <= i < plan.instances@.len() ==> #[trigger] r.slot_to_logical@[i] == (
                plan.instances@[i].slot_index,
                plan.instances@[i].logical_track_index,
            ),
    {
        let RuntimeInstancePlan { logical_track_count, instances: metas, event_boundaries_ms: _ } = plan;
        let ghost orig = metas@;
        let mut metas = metas;
        let mut instances: Vec<BufferInstance<T>> = Vec::new();
        let mut slot_to_logical: Vec<(usize, usize)> = Vec::new();
        let mut track_count = logical_track_count;
        while metas.len() > 0
            invariant
                instances@.len() + metas@.len() == orig.len(),
                metas@ == orig.subrange(instances@.len() as int, orig.len() as int),
                slot_to_logical@.len() == instances@.len(),
                forall|i: int| 0 <= i < orig.len() ==> (#[trigger] orig[i]).logical_track_index < usize::MAX,
                track_count >= logical_track_count,
                forall|i: int| 0 <= i < instances@.len() ==> {
                    let inst = #[trigger] instances@[i];
                    &&& inst.meta == orig[i]
                    &&& inst.buffer.wf()
                    &&& inst.buffer.view() == Seq::<T>::empty()
                    &&& inst.buffer.silence_value() == silence
                    &&& inst.buffer_capacity_samples == (if capacity_samples == 0 { 1 } else { capacity_samples })
                    &&& !inst.full && !inst.finished
                    &&& inst.produced_samples == 0 && inst.zero_filled_samples == 0
                    &&& inst.eof_reached_ms is None
                    &&& inst.meta.logical_track_index < track_count
                },
                forall|i: int| 0 <= i < instances@.len() ==> #[trigger] slot_to_logical@[i] == (
                    orig[i].slot_index,
                    orig[i].logical_track_index,
                ),
                track_count == spec_track_count(logical_track_count, orig.take(instances@.len() as int)),
            decreases metas.len(),
        {
            let ghost k = instances@.len() as int;
            let meta = metas.remove(0);
            proof {
                assert(meta == orig[k]);
                assert(metas@ =~= orig.subrange(k + 1, orig.len() as int));
                assert(orig.take(k + 1).drop_last() == orig.take(k));
                assert(orig.take(k + 1).last() == orig[k]);
            }
            slot_to_logical.push((meta.slot_index, meta.logical_track_index));
            if meta.logical_track_index >= track_count {
                track_count = meta.logical_track_index + 1;
            }
            instances.push(BufferInstance::new(meta, capacity_samples, silence));
        }
        assert(orig.take(orig.len() as int) == orig);
        let mut track_instances: Vec<Vec<usize>> = Vec::new();
        let mut t: usize = 0;
        while t < track_count
            invariant
                t <= track_count,
                track_instances@.len() == t,
                forall|i: int| 0 <= i < instances@.len() ==> (#[trigger] instances@[i]).meta.logical_track_index < track_count,
                forall|a: int| 0 <= a < t ==> strictly_increasing(#[trigger] track_instances@[a]@),
                forall|a: int, j: int| 0 <= a < t && 0 <= j < track_instances@[a]@.len()
                    ==> #[trigger] track_instances@[a]@[j] < instances@.len()
                        && instances@[track_instances@[a]@[j] as int].meta.logical_track_index == a,
                forall|i: int| 0 <= i < instances@.len() && (#[trigger] instances@[i]).meta.logical_track_index < t
                    ==> in_list(track_instances@[instances@[i].meta.logical_track_index as int]@, i),
            decreases track_count - t,
        {
            let list = Self::collect_track(&instances, t);
            track_instances.push(list);
            proof {
                assert forall|a: int, j: int| 0 <= a < t + 1 && 0 <= j < track_instances@[a]@.len()
                    implies #[trigger] track_instances@[a]@[j] < instances@.len()
                        && instances@[track_instances@[a]@[j] as int].meta.logical_track_index == a by {
                    if a == t { assert(track_instances@[a] == list); }
                }
            }
            t = t + 1;
        }
        BufferMixer {
            sample_rate: if sample_rate == 0 { 1 } else { sample_rate },
            channels: if channels == 0 { 1 } else { channels },
            mix_chunk_samples: if mix_chunk_samples == 0 { 1 } else { mix_chunk_samples },
            consumed_samples: 0,
            instances,
            track_instances,
            slot_to_logical,
            crossfade_ms: 2,
        }
    }

    /// The instances in `0..n` that a finish signal for `source` (`None`:
    /// every source) newly finishes, as events in index order.
    pub open spec fn finish_events(insts: Seq<BufferInstance<T>>, source: Option<SourceKeyView>, n: int) -> Seq<BackpressureEvent>
        decreases n,
    {
        if n <= 0 {
            Seq::empty()
        } else {
            let prev = Self::finish_events(insts, source, n - 1);
            let inst = insts[n - 1];
            if !inst.finished && (source matches Some(k) ==> inst.meta.source_key@ == k) {
                prev.push(BackpressureEvent::Finished { instance_index: (n - 1) as usize })
            } else {
                prev
            }
        }
    }

    /// An instance after a finish signal for `source` (`None`: every source).
    pub open spec fn finished_by(inst: BufferInstance<T>, source: Option<SourceKeyView>, eof_ms: u64) -> BufferInstance<T> {
        if !inst.finished && (source matches Some(k) ==> inst.meta.source_key@ == k) {
            BufferInstance { finished: true, eof_reached_ms: Some(eof_ms), ..inst }
        } else {
            inst
        }
    }

    fn finish_matching(&mut self, source: Option<&SourceKey>, events: &mut Vec<BackpressureEvent>)
        requires
            old(self).wf(),
        ensures
            final(self).wf(),
            final(self).instances@.len() == old(self).instances@.len(),
            forall|i: int| 0 <= i < old(self).instances@.len() ==> #[trigger] final(self).instances@[i] == Self::finished_by(
                old(self).instances@[i],
                match source { Some(k) => Some(k@), None => None },
                spec_samples_to_ms(old(self).consumed_samples, old(self).sample_rate, old(self).channels) as u64,
            ),
            final(self).track_instances == old(self).track_instances,
            final(self).slot_to_logical == old(self).slot_to_logical,
            final(self).consumed_samples == old(self).consumed_samples,
            final(self).sample_rate == old(self).sample_rate,
            final(self).channels == old(self).channels,
            final(self).mix_chunk_samples == old(self).mix_chunk_samples,
            final(self).crossfade_ms == old(self).crossfade_ms,
            final(events)@ == old(events)@ + Self::finish_events(
                old(self).instances@,
                match source { Some(k) => Some(k@), None => None },
                old(self).instances@.len() as int,
            ),
    {
        let eof_ms = samples_to_ms(self.consumed_samples, self.sample_rate, self.channels);
        let ghost src = match source { Some(k) => Some(k@), None => None::<SourceKeyView> };
        let ghost orig = self.instances@;
        let ghost ev0 = events@;
        let mut i: usize = 0;
        while i < self.instances.len()
            invariant
                i <= self.instances@.len(),
                self.instances@.len() == orig.len(),
                orig == old(self).instances@,
                src == (match source { Some(k) => Some(k@), None => None::<SourceKeyView> }),
                eof_ms == spec_samples_to_ms(old(self).consumed_samples, old(self).sample_rate, old(self).channels),
                forall|k: int| 0 <= k < i ==> #[trigger] self.instances@[k] == Self::finished_by(orig[k], src, eof_ms),
                forall|k: int| i <= k < orig.len() ==> #[trigger] self.instances@[k] == orig[k],
                self.track_instances == old(self).track_instances,
                self.slot_to_logical == old(self).slot_to_logical,
                self.consumed_samples == old(self).consumed_samples,
                self.sample_rate == old(self).sample_rate,
                self.channels == old(self).channels,
                self.mix_chunk_samples == old(self).mix_chunk_samples,
                self.crossfade_ms == old(self).crossfade_ms,
                events@ == ev0 + Self::finish_events(orig, src, i as int),
                ev0 == old(events)@,
            decreases orig.len() - i,
        {
            let matches = match source {
                Some(k) => self.instances[i].meta.source_key_matches(k),
                None => true,
            };
            if matches && !self.instances[i].finished {
                self.instances[i].finished = true;
                self.instances[i].eof_reached_ms = Some(eof_ms);
                events.push(BackpressureEvent::Finished { instance_index: i });
                proof {
                    assert(ev0 + Self::finish_events(orig, src, i + 1) =~= (ev0 + Self::finish_events(orig, src, i as int)).push(
                        BackpressureEvent::Finished { instance_index: i }));
                }
            }
            i = i + 1;
        }
        proof {
            assert forall|i: int| 0 <= i < self.instances@.len() implies (#[trigger] self.instances@[i]).buffer.wf() by {
                assert(orig[i].buffer.wf());
            }
            assert forall|i: int| 0 <= i < self.instances@.len() implies (#[trigger] self.instances@[i]).meta.logical_track_index
                < self.track_instances@.len() && in_list(self.track_instances@[self.instances@[i].meta.logical_track_index as int]@, i) by {
                assert(orig[i].meta == self.instances@[i].meta);
            }
            assert forall|t: int, j: int| 0 <= t < self.track_instances@.len() && 0 <= j < self.track_instances@[t]@.len()
                implies #[trigger] self.track_instances@[t]@[j] < self.instances@.len()
                    && self.instances@[self.track_instances@[t]@[j] as int].meta.logical_track_index == t by {
                let x = self.track_instances@[t]@[j] as int;
                assert(orig[x].meta == self.instances@[x].meta);
            }
        }
    }

    /// Mark every unfinished instance of `source_key` finished, recording the
    /// playback position (ms) at which it ended.
    pub fn signal_finish(&mut self, source_key: &SourceKey, events: &mut Vec<BackpressureEvent>)
        requires
            old(self).wf(),
        ensures
            final(self).wf(),
            final(self).instances@.len() == old(self).instances@.len(),
            forall|i: int| 0 <= i < old(self).instances@.len() ==> #[trigger] final(self).instances@[i] == Self::finished_by(
                old(self).instances@[i],
                Some(source_key@),
                spec_samples_to_ms(old(self).consumed_samples, old(self).sample_rate, old(self).channels) as u64,
            ),
            final(self).track_instances == old(self).track_instances,
            final(self).slot_to_logical == old(self).slot_to_logical,
            final(self).consumed_samples == old(self).consumed_samples,
            final(self).sample_rate == old(self).sample_rate,
            final(self).channels == old(self).channels,
            final(self).mix_chunk_samples == old(self).mix_chunk_samples,
            final(self).crossfade_ms == old(self).crossfade_ms,
            final(events)@ == old(events)@ + Self::finish_events(old(self).instances@, Some(source_key@), old(self).instances@.len() as int),
    {
        self.finish_matching(Some(source_key), events);
    }

    /// Mark every unfinished instance finished.
    pub fn signal_finish_all(&mut self, events: &mut Vec<BackpressureEvent>)
        requires
            old(self).wf(),
        ensures
            final(self).wf(),
            final(self).instances@.len() == old(self).instances@.len(),
            forall|i: int| 0 <= i < old(self).instances@.len() ==> #[trigger] final(self).instances@[i] == Self::finished_by(
                old(self).instances@[i],
                None,
                spec_samples_to_ms(old(self).consumed_samples, old(self).sample_rate, old(self).channels) as u64,
            ),
            final(self).track_instances == old(self).track_instances,
            final(self).slot_to_logical == old(self).slot_to_logical,
            final(self).consumed_samples == old(self).consumed_samples,
            final(self).sample_rate == old(self).sample_rate,
            final(self).channels == old(self).channels,
            final(self).mix_chunk_samples == old(self).mix_chunk_samples,
            final(self).crossfade_ms == old(self).crossfade_ms,
            final(events)@ == old(events)@ + Self::finish_events(old(self).instances@, None, old(self).instances@.len() as int),
    {
        self.finish_matching(None, events);
    }

    /// Samples an instance can contribute now (`usize::MAX`: not limiting).
    pub open spec fn spec_available(inst: BufferInstance<T>, consumed: usize, sample_rate: u32, channels: usize) -> int {
        if spec_fully_past(inst, consumed, sample_rate, channels) {
            usize::MAX as int
        } else if inst.buffer.view().len() > 0 {
            inst.buffer.view().len() as int
        } else if inst.finished {
            usize::MAX as int
        } else {
            0
        }
    }

    /// Minimum availability over the instances of `list` (`usize::MAX` when empty).
    pub open spec fn list_min(&self, list: Seq<usize>) -> int
        decreases list.len(),
    {
        if list.len() == 0 {
            usize::MAX as int
        } else {
            let m = self.list_min(list.drop_last());
            let a = Self::spec_available(self.instances@[list.last() as int], self.consumed_samples, self.sample_rate, self.channels);
            if a < m { a } else { m }
        }
    }

    /// Minimum availability over logical tracks `0..n` (`usize::MAX` when `n` is 0).
    pub open spec fn tracks_min(&self, n: int) -> int
        decreases n,
    {
        if n <= 0 {
            usize::MAX as int
        } else {
            let m = self.tracks_min(n - 1);
            let a = self.list_min(self.track_instances@[n - 1]@);
            if a < m { a } else { m }
        }
    }

    /// Samples every logical track can deliver now (0 when there are no tracks).
    pub open spec fn spec_min_ready(&self) -> int {
        if self.track_instances@.len() == 0 { 0 } else { self.tracks_min(self.track_instances@.len() as int) }
    }

    /// An instance after fully elapsed instances are marked finished.
    pub open spec fn marked(inst: BufferInstance<T>, consumed: usize, sample_rate: u32, channels: usize) -> BufferInstance<T> {
        if spec_fully_past(inst, consumed, sample_rate, channels) {
            BufferInstance { finished: true, ..inst }
        } else {
            inst
        }
    }

    /// Finished events for the fully elapsed instances among the first `n`.
    pub open spec fn mark_events(&self, n: int) -> Seq<BackpressureEvent>
        decreases n,
    {
        if n <= 0 {
            Seq::empty()
        } else {
            let prev = self.mark_events(n - 1);
            if spec_fully_past(self.instances@[n - 1], self.consumed_samples, self.sample_rate, self.channels) {
                prev.push(BackpressureEvent::Finished { instance_index: (n - 1) as usize })
            } else {
                prev
            }
        }
    }

    /// Samples taken from an instance holding `len` when `to_consume` are consumed.
    pub open spec fn take_count(len: int, to_consume: int) -> int {
        if to_consume < len { to_consume } else { len }
    }

    /// Popped events for the first `n` instances when `to_consume` samples are taken.
    pub open spec fn pop_events(&self, to_consume: int, n: int) -> Seq<BackpressureEvent>
        decreases n,
    {
        if n <= 0 {
            Seq::empty()
        } else {
            let prev = self.pop_events(to_consume, n - 1);
            let inst = self.instances@[n - 1];
            if spec_fully_past(inst, self.consumed_samples, self.sample_rate, self.channels) {
                prev
            } else {
                prev.push(BackpressureEvent::Popped {
                    instance_index: (n - 1) as usize,
                    popped: Self::take_count(inst.buffer.view().len() as int, to_consume) as usize,
                })
            }
        }
    }

    /// Samples an instance can contribute now (`usize::MAX`: not limiting).
    pub fn instance_available_samples(&self, instance_index: usize) -> (r: usize)
        requires
            self.wf(),
            instance_index < self.instances@.len(),
        ensures
            r == Self::spec_available(self.instances@[instance_index as int], self.consumed_samples, self.sample_rate, self.channels),
    {
        let instance = &self.instances[instance_index];
        if instance_fully_past_window(instance, self.consumed_samples, self.sample_rate, self.channels) {
            usize::MAX
        } else if instance.buffer.len() > 0 {
            instance.buffer.len()
        } else if instance.finished {
            usize::MAX
        } else {
            0
        }
    }

    /// Samples every logical track can deliver now.
    pub fn min_ready_samples(&self) -> (r: usize)
        requires
            self.wf(),
        ensures
            r == self.spec_min_ready(),
    {
        if self.track_instances.len() == 0 {
            return 0;
        }
        let mut best: usize = usize::MAX;
        let mut t: usize = 0;
        while t < self.track_instances.len()
            invariant
                self.wf(),
                t <= self.track_instances@.len(),
                best == self.tracks_min(t as int),
            decreases self.track_instances.len() - t,
        {
            let list = &self.track_instances[t];
            let mut track_min: usize = usize::MAX;
            let mut j: usize = 0;
            while j < list.len()
                invariant
                    self.wf(),
                    t < self.track_instances@.len(),
                    list@ == self.track_instances@[t as int]@,
                    j <= list@.len(),
                    track_min == self.list_min(list@.take(j as int)),
                decreases list.len() - j,
            {
                proof {
                    assert(list@.take(j + 1).drop_last() == list@.take(j as int));
                    assert(list@.take(j + 1).last() == list@[j as int]);
                    assert(list@[j as int] < self.instances@.len());
                }
                let a = self.instance_available_samples(list[j]);
                if a < track_min {
                    track_min = a;
                }
                j = j + 1;
            }
            proof {
                assert(list@.take(list@.len() as int) == list@);
            }
            if track_min < best {
                best = track_min;
            }
            t = t + 1;
        }
        best
    }

    fn pop_samples(buffer: &mut AlignedSampleBuffer<T>, count: usize) -> (r: Vec<T>)
        requires
            old(buffer).wf(),
        ensures
            final(buffer).wf(),
            final(buffer).silence_value() == old(buffer).silence_value(),
            r@ == old(buffer).view().take(Self::take_count(old(buffer).view().len() as int, count as int)),
            final(buffer).view() == old(buffer).view().skip(Self::take_count(old(buffer).view().len() as int, count as int)),
    {
        let ghost v0 = buffer.view();
        let n = if count < buffer.len() { count } else { buffer.len() };
        let mut out: Vec<T> = Vec::new();
        let mut k: usize = 0;
        while k < n
            invariant
                k <= n,
                n == Self::take_count(v0.len() as int, count as int),
                buffer.wf(),
                buffer.silence_value() == old(buffer).silence_value(),
                out@ == v0.take(k as int),
                buffer.view() == v0.skip(k as int),
            decreases n - k,
        {
            let v = buffer.pop_front();
            proof {
                assert(v0.skip(k as int).len() > 0);
                assert(v0.skip(k as int)[0] == v0[k as int]);
                assert(v0.skip(k as int).drop_first() =~= v0.skip(k + 1));
            }
            match v {
                Some(x) => {
                    out.push(x);
                },
                None => {},
            }
            proof {
                assert(out@ =~= v0.take(k + 1));
            }
            k = k + 1;
        }
        out
    }

    /// `b` is `a` after one take of `n` samples: fully elapsed instances keep
    /// their (empty) buffer; the others lose the first `n` buffered samples
    /// (or all, when fewer are buffered). Nothing else changes.
    pub open spec fn taken(a: BufferInstance<T>, b: BufferInstance<T>, consumed: usize, sample_rate: u32, channels: usize, n: int) -> bool {
        &&& b.meta == a.meta
        &&& b.buffer_capacity_samples == a.buffer_capacity_samples
        &&& b.full == a.full
        &&& b.finished == a.finished
        &&& b.produced_samples == a.produced_samples
        &&& b.zero_filled_samples == a.zero_filled_samples
        &&& b.eof_reached_ms == a.eof_reached_ms
        &&& b.buffer.wf()
        &&& b.buffer.silence_value() == a.buffer.silence_value()
        &&& b.buffer.view() == (if spec_fully_past(a, consumed, sample_rate, channels) {
            a.buffer.view()
        } else {
            a.buffer.view().skip(Self::take_count(a.buffer.view().len() as int, n))
        })
    }

    /// What an instance contributes to a take of `n` samples.
    pub open spec fn contribution(a: BufferInstance<T>, consumed: usize, sample_rate: u32, channels: usize, n: int) -> Seq<T> {
        if spec_fully_past(a, consumed, sample_rate, channels) {
            Seq::empty()
        } else {
            a.buffer.view().take(Self::take_count(a.buffer.view().len() as int, n))
        }
    }

    /// Size of the next chunk: the samples every track can deliver, capped
    /// at the chunk size; `None` when no chunk can be taken yet.
    pub open spec fn spec_chunk_size(&self, has_waiters: bool) -> Option<int> {
        let m = self.spec_min_ready();
        let c = if m < self.mix_chunk_samples { m } else { self.mix_chunk_samples as int };
        if !self.spec_mix_ready(1) || m == 0 || m == usize::MAX as int {
            None
        } else if !(self.spec_mix_finished() || c >= self.mix_chunk_samples || has_waiters) {
            None
        } else {
            Some(c)
        }
    }

    /// Mark every fully elapsed instance finished, reporting each.
    fn mark_elapsed(&mut self, events: &mut Vec<BackpressureEvent>)
        requires
            old(self).wf(),
        ensures
            final(self).wf(),
            final(self).instances@.len() == old(self).instances@.len(),
            forall|i: int| 0 <= i < old(self).instances@.len() ==> #[trigger] final(self).instances@[i] == Self::marked(
                old(self).instances@[i], old(self).consumed_samples, old(self).sample_rate, old(self).channels),
            final(self).track_instances == old(self).track_instances,
            final(self).slot_to_logical == old(self).slot_to_logical,
            final(self).consumed_samples == old(self).consumed_samples,
            final(self).sample_rate == old(self).sample_rate,
            final(self).channels == old(self).channels,
            final(self).mix_chunk_samples == old(self).mix_chunk_samples,
            final(self).crossfade_ms == old(self).crossfade_ms,
            final(events)@ == old(events)@ + old(self).mark_events(old(self).instances@.len() as int),
    {
        let ghost orig = *self;
        let ghost ev0 = events@;
        let mut i: usize = 0;
        while i < self.instances.len()
            invariant
                i <= self.instances@.len(),
                self.instances@.len() == orig.instances@.len(),
                orig == *old(self),
                forall|k: int| 0 <= k < i ==> #[trigger] self.instances@[k] == Self::marked(
                    orig.instances@[k], orig.consumed_samples, orig.sample_rate, orig.channels),
                forall|k: int| i <= k < orig.instances@.len() ==> #[trigger] self.instances@[k] == orig.instances@[k],
                self.track_instances == orig.track_instances,
                self.slot_to_logical == orig.slot_to_logical,
                self.consumed_samples == orig.consumed_samples,
                self.sample_rate == orig.sample_rate,
                self.channels == orig.channels,
                self.mix_chunk_samples == orig.mix_chunk_samples,
                self.crossfade_ms == orig.crossfade_ms,
                events@ == ev0 + orig.mark_events(i as int),
                ev0 == old(events)@,
                orig.wf(),
            decreases orig.instances@.len() - i,
        {
            if instance_fully_past_window(&self.instances[i], self.consumed_samples, self.sample_rate, self.channels) {
                self.instances[i].finished = true;
                events.push(BackpressureEvent::Finished { instance_index: i });
                proof {
                    assert(ev0 + orig.mark_events(i + 1) =~= (ev0 + orig.mark_events(i as int)).push(
                        BackpressureEvent::Finished { instance_index: i }));
                }
            } else {
                proof {
                    assert(orig.mark_events(i + 1) == orig.mark_events(i as int));
                }
            }
            i = i + 1;
        }
        proof {
            let n = orig.instances@;
            assert forall|i: int| 0 <= i < self.instances@.len() implies (#[trigger] self.instances@[i]).buffer.wf() by {
                assert(n[i].buffer.wf());
            }
            assert forall|i: int| 0 <= i < self.instances@.len() implies (#[trigger] self.instances@[i]).meta.logical_track_index
                < self.track_instances@.len() && in_list(self.track_instances@[self.instances@[i].meta.logical_track_index as int]@, i) by {
                assert(n[i].meta == self.instances@[i].meta);
            }
            assert forall|t: int, j: int| 0 <= t < self.track_instances@.len() && 0 <= j < self.track_instances@[t]@.len()
                implies #[trigger] self.track_instances@[t]@[j] < self.instances@.len()
                    && self.instances@[self.track_instances@[t]@[j] as int].meta.logical_track_index == t by {
                let x = self.track_instances@[t]@[j] as int;
                assert(n[x].meta == self.instances@[x].meta);
            }
        }
    }


    /// Take up to `n` samples from every instance that has not fully elapsed.
    fn pop_all(&mut self, n: usize, events: &mut Vec<BackpressureEvent>) -> (r: Vec<Vec<T>>)
        requires
            old(self).wf(),
        ensures
            final(self).wf(),
            final(self).instances@.len() == old(self).instances@.len(),
            r@.len() == old(self).instances@.len(),
            forall|i: int| 0 <= i < old(self).instances@.len() ==> {
                &&& Self::taken(old(self).instances@[i], #[trigger] final(self).instances@[i], old(self).consumed_samples,
                    old(self).sample_rate, old(self).channels, n as int)
                &&& r@[i]@ == Self::contribution(old(self).instances@[i], old(self).consumed_samples,
                    old(self).sample_rate, old(self).channels, n as int)
            },
            final(self).track_instances == old(self).track_instances,
            final(self).slot_to_logical == old(self).slot_to_logical,
            final(self).consumed_samples == old(self).consumed_samples,
            final(self).sample_rate == old(self).sample_rate,
            final(self).channels == old(self).channels,
            final(self).mix_chunk_samples == old(self).mix_chunk_samples,
            final(self).crossfade_ms == old(self).crossfade_ms,
            final(events)@ == old(events)@ + old(self).pop_events(n as int, old(self).instances@.len() as int),
    {
        let ghost orig = *self;
        let ghost ev0 = events@;
        let mut out: Vec<Vec<T>> = Vec::new();
        let mut i: usize = 0;
        while i < self.instances.len()
            invariant
                i <= self.instances@.len(),
                self.instances@.len() == orig.instances@.len(),
                orig == *old(self),
                out@.len() == i,
                forall|k: int| 0 <= k < i ==> {
                    &&& Self::taken(orig.instances@[k], #[trigger] self.instances@[k], orig.consumed_samples,
                        orig.sample_rate, orig.channels, n as int)
                    &&& out@[k]@ == Self::contribution(orig.instances@[k], orig.consumed_samples,
                        orig.sample_rate, orig.channels, n as int)
                },
                forall|k: int| i <= k < orig.instances@.len() ==> #[trigger] self.instances@[k] == orig.instances@[k],
                self.track_instances == orig.track_instances,
                self.slot_to_logical == orig.slot_to_logical,
                self.consumed_samples == orig.consumed_samples,
                self.sample_rate == orig.sample_rate,
                self.channels == orig.channels,
                self.mix_chunk_samples == orig.mix_chunk_samples,
                self.crossfade_ms == orig.crossfade_ms,
                events@ == ev0 + orig.pop_events(n as int, i as int),
                ev0 == old(events)@,
                orig.wf(),
            decreases orig.instances@.len() - i,
        {
            proof {
                assert(orig.instances@[i as int].buffer.wf());
            }
            if instance_fully_past_window(&self.instances[i], self.consumed_samples, self.sample_rate, self.channels) {
                out.push(Vec::new());
                proof {
                    assert(orig.pop_events(n as int, i + 1) == orig.pop_events(n as int, i as int));
                }
            } else {
                let taken = Self::pop_samples(&mut self.instances[i].buffer, n);
                let popped = taken.len();
                events.push(BackpressureEvent::Popped { instance_index: i, popped });
                proof {
                    assert(ev0 + orig.pop_events(n as int, i + 1) =~= (ev0 + orig.pop_events(n as int, i as int)).push(
                        BackpressureEvent::Popped { instance_index: i, popped }));
                }
                out.push(taken);
            }
            i = i + 1;
        }
        proof {
            let v = orig.instances@;
            assert forall|i: int| 0 <= i < self.instances@.len() implies (#[trigger] self.instances@[i]).buffer.wf() by {
                assert(Self::taken(v[i], self.instances@[i], orig.consumed_samples, orig.sample_rate, orig.channels, n as int));
            }
            assert forall|i: int| 0 <= i < self.instances@.len() implies (#[trigger] self.instances@[i]).meta.logical_track_index
                < self.track_instances@.len() && in_list(self.track_instances@[self.instances@[i].meta.logical_track_index as int]@, i) by {
                assert(Self::taken(v[i], self.instances@[i], orig.consumed_samples, orig.sample_rate, orig.channels, n as int));
                assert(v[i].meta == self.instances@[i].meta);
            }
            assert forall|t: int, j: int| 0 <= t < self.track_instances@.len() && 0 <= j < self.track_instances@[t]@.len()
                implies #[trigger] self.track_instances@[t]@[j] < self.instances@.len()
                    && self.instances@[self.track_instances@[t]@[j] as int].meta.logical_track_index == t by {
                let x = self.track_instances@[t]@[j] as int;
                assert(Self::taken(v[x], self.instances@[x], orig.consumed_samples, orig.sample_rate, orig.channels, n as int));
                assert(v[x].meta == self.instances@[x].meta);
            }
        }
        out
    }


    /// Take one synchronized chunk across all logical tracks.
    ///
    /// Nothing happens unless every track is ready. Then fully elapsed
    /// instances are marked finished; a chunk of the samples every track can
    /// deliver, capped at the chunk size, is taken when that is a full chunk,
    /// when the mix is finished, or when a decode worker is waiting for room
    /// (`has_waiters`). Each instance that has not elapsed gives up to that
    /// many samples, and playback advances by the chunk size.
    pub fn take_samples(&mut self, has_waiters: bool, events: &mut Vec<BackpressureEvent>) -> (r: Option<MixChunk<T>>)
        requires
            old(self).wf(),
        ensures
            final(self).wf(),
            final(self).instances@.len() == old(self).instances@.len(),
            final(self).track_instances == old(self).track_instances,
            final(self).slot_to_logical == old(self).slot_to_logical,
            final(self).sample_rate == old(self).sample_rate,
            final(self).channels == old(self).channels,
            final(self).mix_chunk_samples == old(self).mix_chunk_samples,
            final(self).crossfade_ms == old(self).crossfade_ms,
            !old(self).spec_mix_ready(1) ==> *final(self) == *old(self) && final(events)@ == old(events)@ && r is None,
            old(self).spec_mix_ready(1) && old(self).spec_chunk_size(has_waiters) is None ==> {
                &&& r is None
                &&& final(self).consumed_samples == old(self).consumed_samples
                &&& forall|i: int| 0 <= i < old(self).instances@.len() ==> #[trigger] final(self).instances@[i] == Self::marked(
                    old(self).instances@[i], old(self).consumed_samples, old(self).sample_rate, old(self).channels)
                &&& final(events)@ == old(events)@ + old(self).mark_events(old(self).instances@.len() as int)
            },
            match old(self).spec_chunk_size(has_waiters) {
                Some(c) => {
                    &&& r matches Some(chunk) && chunk.sample_count == c && chunk.instance_samples@.len() == old(self).instances@.len()
                        && forall|i: int| 0 <= i < old(self).instances@.len() ==> (#[trigger] chunk.instance_samples@[i])@
                            == Self::contribution(old(self).instances@[i], old(self).consumed_samples, old(self).sample_rate, old(self).channels, c)
                    &&& forall|i: int| 0 <= i < old(self).instances@.len() ==> Self::taken(
                        Self::marked(old(self).instances@[i], old(self).consumed_samples, old(self).sample_rate, old(self).channels),
                        #[trigger] final(self).instances@[i], old(self).consumed_samples, old(self).sample_rate, old(self).channels, c)
                    &&& final(self).consumed_samples == (if old(self).consumed_samples + c > usize::MAX {
                        usize::MAX as int
                    } else {
                        old(self).consumed_samples + c
                    })
                    &&& final(events)@ == old(events)@ + old(self).mark_events(old(self).instances@.len() as int)
                        + old(self).pop_events(c, old(self).instances@.len() as int)
                },
                None => r is None,
            },
    {
        if !self.mix_ready() {
            return None;
        }
        let min_ready = self.min_ready_samples();
        let finished = self.mix_finished();
        let ghost before = *self;
        self.mark_elapsed(events);
        if min_ready == 0 || min_ready == usize::MAX {
            return None;
        }
        let to_consume = if min_ready < self.mix_chunk_samples { min_ready } else { self.mix_chunk_samples };
        if !(finished || to_consume >= self.mix_chunk_samples || has_waiters) {
            return None;
        }
        let ghost marked_state = *self;
        let instance_samples = self.pop_all(to_consume, events);
        proof {
            assert forall|i: int| 0 <= i < before.instances@.len() implies Self::contribution(
                marked_state.instances@[i], before.consumed_samples, before.sample_rate, before.channels, to_consume as int)
                == Self::contribution(before.instances@[i], before.consumed_samples, before.sample_rate, before.channels, to_consume as int) by {
                assert(marked_state.instances@[i] == Self::marked(before.instances@[i], before.consumed_samples, before.sample_rate, before.channels));
            }
            assert(marked_state.pop_events(to_consume as int, before.instances@.len() as int)
                == before.pop_events(to_consume as int, before.instances@.len() as int)) by {
                Self::lemma_pop_events_marked(before, marked_state, to_consume as int, before.instances@.len() as int);
            }
        }
        self.consumed_samples = self.consumed_samples.saturating_add(to_consume);
        Some(MixChunk { sample_count: to_consume, instance_samples })
    }

    proof fn lemma_list_min_le(&self, list: Seq<usize>, j: int)
        requires
            0 <= j < list.len(),
        ensures
            self.list_min(list) <= Self::spec_available(self.instances@[list[j] as int], self.consumed_samples,
                self.sample_rate, self.channels),
        decreases list.len(),
    {
        if j < list.len() - 1 {
            self.lemma_list_min_le(list.drop_last(), j);
        }
    }

    proof fn lemma_list_min_nonneg(&self, list: Seq<usize>)
        ensures
            self.list_min(list) >= 0,
        decreases list.len(),
    {
        if list.len() > 0 {
            self.lemma_list_min_nonneg(list.drop_last());
        }
    }

    proof fn lemma_tracks_min_nonneg(&self, n: int)
        ensures
            self.tracks_min(n) >= 0,
        decreases n,
    {
        if n > 0 {
            self.lemma_list_min_nonneg(self.track_instances@[n - 1]@);
            self.lemma_tracks_min_nonneg(n - 1);
        }
    }

    proof fn lemma_tracks_min_le(&self, n: int, t: int)
        requires
            0 <= t < n <= self.track_instances@.len(),
        ensures
            self.tracks_min(n) <= self.list_min(self.track_instances@[t]@),
        decreases n,
    {
        if t < n - 1 {
            self.lemma_tracks_min_le(n - 1, t);
        }
    }

    /// Chunks are synchronized: when a chunk of `c` samples is taken, every
    /// instance that has not fully elapsed contributes exactly `c` samples,
    /// unless it is finished with nothing left, in which case it contributes
    /// none.
    pub proof fn lemma_chunk_synchronized(&self, has_waiters: bool, i: int)
        requires
            self.wf(),
            0 <= i < self.instances@.len(),
            self.spec_chunk_size(has_waiters) is Some,
        ensures
            ({
                let c = self.spec_chunk_size(has_waiters)->0;
                let inst = self.instances@[i];
                let got = Self::contribution(inst, self.consumed_samples, self.sample_rate, self.channels, c);
                if spec_fully_past(inst, self.consumed_samples, self.sample_rate, self.channels) {
                    got.len() == 0
                } else if inst.buffer.view().len() == 0 {
                    inst.finished && got.len() == 0
                } else {
                    got.len() == c && got == inst.buffer.view().take(c)
                }
            }),
    {
        let c = self.spec_chunk_size(has_waiters)->0;
        let inst = self.instances@[i];
        let t = inst.meta.logical_track_index as int;
        let list = self.track_instances@[t]@;
        assert(in_list(list, i));
        let w = choose|w: int| 0 <= w < list.len() && #[trigger] list[w] == i;
        self.lemma_list_min_le(list, w);
        self.lemma_tracks_min_le(self.track_instances@.len() as int, t);
        self.lemma_tracks_min_nonneg(self.track_instances@.len() as int);
        let m = self.spec_min_ready();
        assert(m <= Self::spec_available(inst, self.consumed_samples, self.sample_rate, self.channels));
        assert(0 < c <= m);
    }

    /// The tail of the mix is played: once every instance is finished and
    /// the tracks can deliver a positive, finite number of samples, a chunk
    /// of that many samples, capped at the chunk size, is taken whether or
    /// not a decode worker waits, even when it is shorter than a full chunk.
    pub proof fn lemma_finished_mix_drains(&self, has_waiters: bool)
        requires
            self.wf(),
            forall|i: int| 0 <= i < self.instances@.len() ==> (#[trigger] self.instances@[i]).finished,
            0 < self.spec_min_ready() < usize::MAX,
        ensures
            self.spec_chunk_size(has_waiters) == Some(
                if self.spec_min_ready() < self.mix_chunk_samples { self.spec_min_ready() } else { self.mix_chunk_samples as int },
            ),
    {
        assert forall|t: int| 0 <= t < self.track_instances@.len() implies #[trigger] self.spec_track_ready(t, 1) by {
            self.lemma_finished_track_ready(t, 1);
        }
        assert forall|t: int| 0 <= t < self.track_instances@.len() implies #[trigger] self.spec_track_finished(t) by {
            assert forall|j: int| 0 <= j < self.track_instances@[t]@.len() implies {
                let inst = #[trigger] self.instances@[self.track_instances@[t]@[j] as int];
                inst.finished || spec_fully_past(inst, self.consumed_samples, self.sample_rate, self.channels)
            } by {
                assert(self.track_instances@[t]@[j] < self.instances@.len());
            }
        }
    }

    /// Short chunks are never taken while the mix is still going and no
    /// decode worker waits: without a finished mix or a waiter, a chunk
    /// is taken only when a full chunk is there.
    pub proof fn lemma_short_chunk_needs_reason(&self, has_waiters: bool)
        requires
            self.spec_chunk_size(has_waiters) matches Some(c) && c < self.mix_chunk_samples,
        ensures
            self.spec_mix_finished() || has_waiters,
    {
    }

    /// A chunk holds at least one sample and at most the chunk size.
    pub proof fn lemma_chunk_size_bounds(&self, has_waiters: bool)
        requires
            self.wf(),
            self.spec_chunk_size(has_waiters) is Some,
        ensures
            1 <= self.spec_chunk_size(has_waiters)->0 <= self.mix_chunk_samples,
    {
        self.lemma_tracks_min_nonneg(self.track_instances@.len() as int);
    }

    proof fn lemma_pop_events_marked(a: Self, b: Self, c: int, n: int)
        requires
            0 <= n <= a.instances@.len(),
            b.instances@.len() == a.instances@.len(),
            b.consumed_samples == a.consumed_samples,
            b.sample_rate == a.sample_rate,
            b.channels == a.channels,
            forall|i: int| 0 <= i < a.instances@.len() ==> #[trigger] b.instances@[i] == Self::marked(
                a.instances@[i], a.consumed_samples, a.sample_rate, a.channels),
        ensures
            b.pop_events(c, n) == a.pop_events(c, n),
        decreases n,
    {
        if n > 0 {
            Self::lemma_pop_events_marked(a, b, c, n - 1);
            assert(b.instances@[n - 1] == Self::marked(a.instances@[n - 1], a.consumed_samples, a.sample_rate, a.channels));
        }
    }

}

impl<T: Copy> BufferMixer<T> {
    /// Number of the first `n` instances that are finished or fully elapsed.
    pub open spec fn finished_count(&self, n: int) -> int
        decreases n,
    {
        if n <= 0 {
            0
        } else {
            let inst = self.instances@[n - 1];
            self.finished_count(n - 1) + (if inst.finished || spec_fully_past(
                inst, self.consumed_samples, self.sample_rate, self.channels) { 1int } else { 0int })
        }
    }

    /// The `full` flags of the instances listed in `list`.
    pub open spec fn full_flags(&self, list: Seq<usize>) -> Seq<bool> {
        Seq::new(list.len(), |j: int| self.instances@[list[j] as int].full)
    }

    /// Count instances that are finished or fully elapsed.
    pub fn finished_instance_count(&self) -> (r: usize)
        requires
            self.wf(),
        ensures
            r == self.finished_count(self.instances@.len() as int),
    {
        let mut count: usize = 0;
        let mut i: usize = 0;
        while i < self.instances.len()
            invariant
                self.wf(),
                i <= self.instances@.len(),
                count == self.finished_count(i as int),
                count <= i,
            decreases self.instances.len() - i,
        {
            let inst = &self.instances[i];
            if inst.finished || instance_fully_past_window(inst, self.consumed_samples, self.sample_rate, self.channels) {
                count = count + 1;
            }
            i = i + 1;
        }
        count
    }

    /// `(instance id, buffered samples)` for every instance.
    pub fn instance_buffer_fills(&self) -> (r: Vec<(usize, usize)>)
        requires
            self.wf(),
        ensures
            r@.len() == self.instances@.len(),
            forall|i: int| 0 <= i < r@.len() ==> #[trigger] r@[i] == (
                self.instances@[i].meta.instance_id,
                self.instances@[i].buffer.view().len() as usize,
            ),
    {
        let mut out: Vec<(usize, usize)> = Vec::new();
        let mut i: usize = 0;
        while i < self.instances.len()
            invariant
                self.wf(),
                i <= self.instances@.len(),
                out@.len() == i,
                forall|k: int| 0 <= k < i ==> #[trigger] out@[k] == (
                    self.instances@[k].meta.instance_id,
                    self.instances@[k].buffer.view().len() as usize,
                ),
            decreases self.instances.len() - i,
        {
            let inst = &self.instances[i];
            out.push((inst.meta.instance_id, inst.buffer.len()));
            i = i + 1;
        }
        out
    }

    /// `(instance id, produced samples, zero-filled samples, end position)` for every instance.
    pub fn counters(&self) -> (r: Vec<(usize, u64, u64, Option<u64>)>)
        ensures
            r@.len() == self.instances@.len(),
            forall|i: int| 0 <= i < r@.len() ==> #[trigger] r@[i] == (
                self.instances@[i].meta.instance_id,
                self.instances@[i].produced_samples,
                self.instances@[i].zero_filled_samples,
                self.instances@[i].eof_reached_ms,
            ),
    {
        let mut out: Vec<(usize, u64, u64, Option<u64>)> = Vec::new();
        let mut i: usize = 0;
        while i < self.instances.len()
            invariant
                i <= self.instances@.len(),
                out@.len() == i,
                forall|k: int| 0 <= k < i ==> #[trigger] out@[k] == (
                    self.instances@[k].meta.instance_id,
                    self.instances@[k].produced_samples,
                    self.instances@[k].zero_filled_samples,
                    self.instances@[k].eof_reached_ms,
                ),
            decreases self.instances.len() - i,
        {
            let inst = &self.instances[i];
            out.push((inst.meta.instance_id, inst.produced_samples, inst.zero_filled_samples, inst.eof_reached_ms));
            i = i + 1;
        }
        out
    }

    /// The `full` flags of the instances listed in `list`.
    fn collect_full_flags(&self, list: &Vec<usize>) -> (r: Vec<bool>)
        requires
            forall|j: int| 0 <= j < list@.len() ==> #[trigger] list@[j] < self.instances@.len(),
        ensures
            r@ == self.full_flags(list@),
    {
        let mut out: Vec<bool> = Vec::new();
        let mut j: usize = 0;
        while j < list.len()
            invariant
                forall|q: int| 0 <= q < list@.len() ==> #[trigger] list@[q] < self.instances@.len(),
                j <= list@.len(),
                out@ =~= self.full_flags(list@).take(j as int),
            decreases list.len() - j,
        {
            out.push(self.instances[list[j]].full);
            j = j + 1;
        }
        out
    }

    /// Fill state of one logical track (not full when there is no such track).
    pub fn track_fill_state(&self, logical_track_index: usize) -> (r: FillState)
        requires
            self.wf(),
        ensures
            r == (if logical_track_index < self.track_instances@.len() {
                spec_fill_state(self.full_flags(self.track_instances@[logical_track_index as int]@))
            } else {
                FillState::NotFull
            }),
    {
        if logical_track_index >= self.track_instances.len() {
            return FillState::NotFull;
        }
        let flags = self.collect_full_flags(&self.track_instances[logical_track_index]);
        aggregate_fill_state(flags.as_slice())
    }

    /// Fill state of every logical track.
    pub fn tracks_fill_state(&self) -> (r: Vec<FillState>)
        requires
            self.wf(),
        ensures
            r@.len() == self.track_instances@.len(),
            forall|t: int| 0 <= t < r@.len() ==> #[trigger] r@[t] == spec_fill_state(self.full_flags(self.track_instances@[t]@)),
    {
        let mut out: Vec<FillState> = Vec::new();
        let mut t: usize = 0;
        while t < self.track_instances.len()
            invariant
                self.wf(),
                t <= self.track_instances@.len(),
                out@.len() == t,
                forall|q: int| 0 <= q < t ==> #[trigger] out@[q] == spec_fill_state(self.full_flags(self.track_instances@[q]@)),
            decreases self.track_instances.len() - t,
        {
            out.push(self.track_fill_state(t));
            t = t + 1;
        }
        out
    }

    /// Fill state over all instances.
    pub fn mix_fill_state(&self) -> (r: FillState)
        ensures
            r == spec_fill_state(Seq::new(self.instances@.len(), |i: int| self.instances@[i].full)),
    {
        let mut flags: Vec<bool> = Vec::new();
        let mut i: usize = 0;
        while i < self.instances.len()
            invariant
                i <= self.instances@.len(),
                flags@ =~= Seq::new(self.instances@.len(), |k: int| self.instances@[k].full).take(i as int),
            decreases self.instances.len() - i,
        {
            flags.push(self.instances[i].full);
            i = i + 1;
        }
        proof {
            assert(flags@ =~= Seq::new(self.instances@.len(), |k: int| self.instances@[k].full));
        }
        aggregate_fill_state(flags.as_slice())
    }

    /// Some of the first `n` instances reads from `v`.
    pub open spec fn reads_from(&self, v: SourceKeyView, n: int) -> bool {
        exists|i: int| 0 <= i < n && (#[trigger] self.instances@[i]).meta.source_key@ == v
    }

    /// The distinct sources the instances read from, in order of first use.
    pub fn sources(&self) -> (r: Vec<SourceKey>)
        ensures
            source_views(r@).no_duplicates(),
            forall|v: SourceKeyView| #![trigger source_views(r@).contains(v)] #![trigger self.reads_from(v, self.instances@.len() as int)]
                source_views(r@).contains(v) <==> self.reads_from(v, self.instances@.len() as int),
    {
        let mut out: Vec<SourceKey> = Vec::new();
        let mut i: usize = 0;
        while i < self.instances.len()
            invariant
                i <= self.instances@.len(),
                source_views(out@).no_duplicates(),
                forall|v: SourceKeyView| #![trigger source_views(out@).contains(v)] #![trigger self.reads_from(v, i as int)]
                    source_views(out@).contains(v) <==> self.reads_from(v, i as int),
            decreases self.instances.len() - i,
        {
            let key = SourceKey::from_shuffle_source(&self.instances[i].meta.source_key);
            let ghost views = source_views(out@);
            let mut seen = false;
            let mut j: usize = 0;
            while j < out.len()
                invariant
                    j <= out@.len(),
                    views == source_views(out@),
                    seen == (exists|q: int| 0 <= q < j && #[trigger] views[q] == key@),
                decreases out.len() - j,
            {
                proof {
                    assert(views[j as int] == out@[j as int]@);
                }
                if out[j].same_as(&key) {
                    seen = true;
                }
                j = j + 1;
            }
            proof {
                if seen {
                    let q = choose|q: int| 0 <= q < out@.len() && #[trigger] views[q] == key@;
                    assert(views.contains(key@));
                }
                assert(seen == views.contains(key@));
            }
            if !seen {
                out.push(key);
                proof {
                    let nv = source_views(out@);
                    assert(nv =~= views.push(key@));
                    assert forall|v: SourceKeyView| #![trigger nv.contains(v)] #![trigger self.reads_from(v, i + 1)]
                        nv.contains(v) <==> self.reads_from(v, i + 1) by {
                        if nv.contains(v) && v != key@ {
                            let w = choose|w: int| 0 <= w < nv.len() && nv[w] == v;
                            assert(views[w] == v);
                            assert(views.contains(v));
                            assert(self.reads_from(v, i as int));
                        }
                        if v == key@ {
                            assert(nv[views.len() as int] == v);
                            assert(self.instances@[i as int].meta.source_key@ == v);
                        }
                        if self.reads_from(v, i + 1) && v != key@ {
                            let q = choose|q: int| 0 <= q < i + 1 && (#[trigger] self.instances@[q]).meta.source_key@ == v;
                            assert(q < i);
                            assert(self.reads_from(v, i as int));
                            assert(views.contains(v));
                            let w = choose|w: int| 0 <= w < views.len() && views[w] == v;
                            assert(nv[w] == v);
                        }
                    }
                }
            } else {
                proof {
                    assert forall|v: SourceKeyView| #![trigger views.contains(v)] #![trigger self.reads_from(v, i + 1)]
                        views.contains(v) <==> self.reads_from(v, i + 1) by {
                        if v == key@ {
                            assert(self.instances@[i as int].meta.source_key@ == v);
                        }
                        if self.reads_from(v, i + 1) && v != key@ {
                            let q = choose|q: int| 0 <= q < i + 1 && (#[trigger] self.instances@[q]).meta.source_key@ == v;
                            assert(q < i);
                            assert(self.reads_from(v, i as int));
                        }
                        if views.contains(v) {
                            assert(self.reads_from(v, i as int));
                            let q = choose|q: int| 0 <= q < i && (#[trigger] self.instances@[q]).meta.source_key@ == v;
                            assert(self.reads_from(v, i + 1));
                        }
                    }
                }
            }
            i = i + 1;
        }
        out
    }
}

/// The identities of a list of source keys.
pub open spec fn source_views(r: Seq<SourceKey>) -> Seq<SourceKeyView> {
    r.map_values(|k: SourceKey| k@)
}

/// Indices of the instances of `insts` that read from `k`, in order.
pub open spec fn key_indices<T>(insts: Seq<BufferInstance<T>>, k: SourceKeyView) -> Seq<usize>
    decreases insts.len(),
{
    if insts.len() == 0 {
        Seq::empty()
    } else {
        let prev = key_indices(insts.drop_last(), k);
        if insts.last().meta.source_key@ == k { prev.push((insts.len() - 1) as usize) } else { prev }
    }
}

proof fn lemma_key_indices_below<T>(insts: Seq<BufferInstance<T>>, k: SourceKeyView)
    ensures
        forall|j: int| 0 <= j < key_indices(insts, k).len() ==> #[trigger] key_indices(insts, k)[j] < insts.len(),
    decreases insts.len(),
{
    if insts.len() > 0 {
        let prev = key_indices(insts.drop_last(), k);
        lemma_key_indices_below(insts.drop_last(), k);
        assert forall|j: int| 0 <= j < key_indices(insts, k).len() implies #[trigger] key_indices(insts, k)[j] < insts.len() by {
            if j < prev.len() {
                assert(key_indices(insts, k)[j] == prev[j]);
            }
        }
    }
}

/// The room accounting of one mixer instance.
pub open spec fn backpressure_of<T: Copy>(inst: BufferInstance<T>) -> DecodeBackpressureInstance {
    DecodeBackpressureInstance {
        capacity_samples: inst.buffer_capacity_samples,
        buffered_samples: inst.buffer.view().len() as usize,
        reserved_samples: 0,
        finished: inst.finished,
    }
}

impl DecodeBackpressureState {
    /// Backpressure state for the mixer's instances: their capacities, fill
    /// levels and finished flags, with every instance routed from its source.
    pub fn from_instances<T: Copy>(instances: &Vec<BufferInstance<T>>) -> (r: Self)
        requires
            forall|i: int| 0 <= i < instances@.len() ==> (#[trigger] instances@[i]).buffer.wf(),
        ensures
            r.wf(),
            !r.shutdown,
            r.waiting_threads == 0,
            r.startup_priority_target_samples is None,
            r.instances@.len() == instances@.len(),
            forall|i: int| 0 <= i < instances@.len() ==> #[trigger] r.instances@[i] == backpressure_of(instances@[i]),
            forall|k: SourceKeyView| #[trigger] r.routes(k) == (if key_indices(instances@, k).len() > 0 {
                Some(key_indices(instances@, k))
            } else {
                None
            }),
    {
        let mut state = DecodeBackpressureState::new();
        let mut i: usize = 0;
        while i < instances.len()
            invariant
                i <= instances@.len(),
                forall|j: int| 0 <= j < instances@.len() ==> (#[trigger] instances@[j]).buffer.wf(),
                state.wf(),
                !state.shutdown,
                state.waiting_threads == 0,
                state.startup_priority_target_samples is None,
                state.instances@.len() == i,
                forall|j: int| 0 <= j < i ==> #[trigger] state.instances@[j] == backpressure_of(instances@[j]),
                forall|k: SourceKeyView| #[trigger] state.routes(k) == (if key_indices(instances@.take(i as int), k).len() > 0 {
                    Some(key_indices(instances@.take(i as int), k))
                } else {
                    None
                }),
            decreases instances.len() - i,
        {
            let instance = &instances[i];
            let source = SourceKey::from_shuffle_source(&instance.meta.source_key);
            let ghost key = source@;
            let ghost before = state.routes(key);
            proof {
                lemma_key_indices_below(instances@.take(i as int), key);
            }
            let ghost st0 = state;
            state.route_instance(source, i);
            let ghost st1 = state;
            state.instances.push(DecodeBackpressureInstance {
                capacity_samples: instance.buffer_capacity_samples,
                buffered_samples: instance.buffer.len(),
                reserved_samples: 0,
                finished: instance.finished,
            });
            proof {
                let t = instances@.take(i + 1);
                assert(t.drop_last() == instances@.take(i as int));
                assert(t.last() == instances@[i as int]);
                match before {
                    Some(l) => {
                        if l.contains(i) {
                            let w = choose|w: int| 0 <= w < l.len() && l[w] == i;
                            assert(l[w] < i);
                        }
                    },
                    None => {
                        assert(key_indices(instances@.take(i as int), key) =~= Seq::<usize>::empty());
                    },
                }
                assert(t.last().meta.source_key@ == key);
                let p = key_indices(instances@.take(i as int), key);
                assert(key_indices(t, key) == p.push(i));
                assert(state.routes(key) == Some(p.push(i)));
                assert forall|k: SourceKeyView| #[trigger] state.routes(k) == (if key_indices(t, k).len() > 0 {
                    Some(key_indices(t, k))
                } else {
                    None
                }) by {
                    assert(t.last().meta.source_key@ == key);
                    if k != key {
                        assert(state.routes(k) == st1.routes(k));
                        assert(st1.routes(k) == st0.routes(k));
                        assert(key_indices(t, k) == key_indices(instances@.take(i as int), k));
                    } else {
                        let p = key_indices(instances@.take(i as int), key);
                        assert(key_indices(t, key) == p.push(i));
                        if p.len() == 0 {
                            assert(p.push(i) =~= seq![i]);
                        }
                    }
                }
            }
            i = i + 1;
        }
        proof {
            assert(instances@.take(instances@.len() as int) == instances@);
        }
        state
    }

    /// Apply a room report of the mixer. Returns whether waiting workers must be woken.
    pub fn apply_event(&mut self, event: BackpressureEvent) -> (notify: bool)
        ensures
            notify == event_notifies(old(self).instances@, event),
            final(self).instances@ == event_instances(old(self).instances@, event),
            old(self).bounded() ==> final(self).bounded(),
            final(self).shutdown == old(self).shutdown,
            final(self).waiting_threads == old(self).waiting_threads,
            final(self).startup_priority_target_samples == old(self).startup_priority_target_samples,
            final(self).source_to_instances@ == old(self).source_to_instances@,
    {
        let ghost s = self.instances@;
        match event {
            BackpressureEvent::Pushed { instance_index, attempted, pushed, full } => {
                let n = self.on_samples_pushed(instance_index, attempted, pushed, full);
                assert(self.instances@ =~= event_instances(s, event));
                n
            },
            BackpressureEvent::Popped { instance_index, popped } => {
                let n = self.on_samples_popped(instance_index, popped);
                assert(self.instances@ =~= event_instances(s, event));
                n
            },
            BackpressureEvent::Finished { instance_index } => {
                let n = self.on_finished(instance_index);
                assert(self.instances@ =~= event_instances(s, event));
                n
            },
        }
    }
}

/// Instance accounting after a room report.
pub open spec fn event_instances(s: Seq<DecodeBackpressureInstance>, e: BackpressureEvent) -> Seq<DecodeBackpressureInstance> {
    match e {
        BackpressureEvent::Pushed { instance_index, attempted, pushed, full } => {
            if (attempted == 0 && pushed == 0 && !full) || instance_index >= s.len() {
                s
            } else {
                let o = s[instance_index as int];
                let b = o.buffered_samples + pushed;
                s.update(instance_index as int, DecodeBackpressureInstance {
                    reserved_samples: (if o.reserved_samples > attempted { o.reserved_samples - attempted } else { 0 }) as usize,
                    buffered_samples: (if b < cap1(o.capacity_samples) { b } else { cap1(o.capacity_samples) }) as usize,
                    ..o
                })
            }
        },
        BackpressureEvent::Popped { instance_index, popped } => {
            if popped == 0 || instance_index >= s.len() {
                s
            } else {
                let o = s[instance_index as int];
                s.update(instance_index as int, DecodeBackpressureInstance {
                    buffered_samples: (if o.buffered_samples > popped { o.buffered_samples - popped } else { 0 }) as usize,
                    ..o
                })
            }
        },
        BackpressureEvent::Finished { instance_index } => {
            if instance_index >= s.len() || s[instance_index as int].finished {
                s
            } else {
                s.update(instance_index as int, DecodeBackpressureInstance {
                    finished: true,
                    reserved_samples: 0,
                    ..s[instance_index as int]
                })
            }
        },
    }
}

/// Whether a room report must wake waiting workers.
pub open spec fn event_notifies(s: Seq<DecodeBackpressureInstance>, e: BackpressureEvent) -> bool {
    match e {
        BackpressureEvent::Pushed { attempted, pushed, .. } => attempted > 0 || pushed > 0,
        BackpressureEvent::Popped { popped, .. } => popped > 0,
        BackpressureEvent::Finished { instance_index } => instance_index < s.len() && !s[instance_index as int].finished,
    }
}

} // verus!
