//! Routing of decoded packets into the instance buffers of a [`BufferMixer`].
//!
//! A packet of one source is offered to every unfinished instance of that
//! source. Instances whose windows the packet has passed are finished;
//! for the others the packet is cut into a cover map of real samples
//! (inside the instance's active windows), silence (outside) and fades at
//! the window edges, and each section is written, capacity permitting.
//!
//! Where the packet falls in time is computed by the caller from the
//! packet's timestamp ([`PacketTiming`]); the fade itself is a caller-given
//! function over owned sample vectors.

use vstd::prelude::*;
use vstd::slice::{slice_subrange, slice_to_vec};

use crate::backpressure::{cap1, in_list};
use crate::buffer_mixer::{BackpressureEvent, BufferInstance, BufferMixer};
use crate::cover_map::{map_cover, spec_map_cover, Cover, TransitionDirection};
use crate::routing::{push_owned_slice, push_slice, push_zeros, writable};
use crate::source_key::{SourceKey, SourceKeyView};

verus! {

/// Where a decoded packet falls for one instance: whether it starts at or
/// past the end of the instance's last window, and the interleaved sample
/// spans of the packet inside the instance's active windows.
#[derive(Debug)]
pub struct PacketTiming {
    pub past_window: bool,
    pub overlap: Vec<(usize, usize)>,
}

/// Instances (by instance id) that received samples for one packet.
#[derive(Debug)]
pub struct RouteDecision {
    /// Instances that received decoded (or faded) source samples.
    pub sample_targets_written: Vec<usize>,
    /// Instances that received silence for this packet span.
    pub zero_fill_targets_written: Vec<usize>,
    /// True when no instance received anything.
    pub ignored: bool,
}

/// What one cover section wrote.
#[derive(Debug, Clone, Copy, PartialEq, Eq, Structural)]
pub struct SectionWriteResult {
    pub wrote_real: bool,
    pub wrote_zero: bool,
}

/// The routing state of one instance while the sections of a packet are
/// written: buffered samples, fullness, counters, and what was written.
pub struct RouteAcc<T> {
    pub view: Seq<T>,
    pub full: bool,
    pub produced: u64,
    pub zero_filled: u64,
    pub wrote_real: bool,
    pub wrote_zero: bool,
}

/// `a + b`, saturating at `u64::MAX`.
pub open spec fn saturating_add_u64(a: u64, b: int) -> u64 {
    if a + b > u64::MAX { u64::MAX } else { (a + b) as u64 }
}

/// The fade is callable on every input, keeps the length of its input and
/// gives equal outputs for equal inputs.
pub open spec fn fade_well_behaved<T, F: Fn(Vec<T>, TransitionDirection, usize) -> Vec<T>>(fade: F) -> bool {
    &&& forall|a: Vec<T>, d: TransitionDirection, t: usize| #[trigger] call_requires(fade, (a, d, t))
    &&& forall|a: Vec<T>, d: TransitionDirection, t: usize, o: Vec<T>| #[trigger] call_ensures(fade, (a, d, t), o)
        ==> o@.len() == a@.len()
    &&& forall|a1: Vec<T>, a2: Vec<T>, d: TransitionDirection, t: usize, o1: Vec<T>, o2: Vec<T>|
        #![trigger call_ensures(fade, (a1, d, t), o1), call_ensures(fade, (a2, d, t), o2)]
        a1@ == a2@ && call_ensures(fade, (a1, d, t), o1) && call_ensures(fade, (a2, d, t), o2) ==> o1@ == o2@
}

/// What the fade gives for `input`.
pub open spec fn fade_of<T, F: Fn(Vec<T>, TransitionDirection, usize) -> Vec<T>>(
    fade: F,
    input: Seq<T>,
    direction: TransitionDirection,
    transition: usize,
) -> Seq<T> {
    let (o, a) = choose|o: Vec<T>, a: Vec<T>| a@ == input && #[trigger] call_ensures(fade, (a, direction, transition), o);
    o@
}

/// Samples a section asks to write (zero when the section is skipped).
pub open spec fn section_want(sec: Cover, samples_len: int) -> int {
    match sec {
        Cover::Overlap((s, e)) => if s < e && e <= samples_len { e - s } else { 0 },
        Cover::Underlay((s, e)) => if s < e { e - s } else { 0 },
        Cover::Transition((_, (s, e))) => if s < e && e <= samples_len { e - s } else { 0 },
    }
}

/// The samples a section offers before capacity truncation.
pub open spec fn section_samples<T, F: Fn(Vec<T>, TransitionDirection, usize) -> Vec<T>>(
    sec: Cover,
    samples: Seq<T>,
    silence: T,
    fade: F,
    transition: usize,
) -> Seq<T> {
    match sec {
        Cover::Overlap((s, e)) => samples.subrange(s as int, e as int),
        Cover::Underlay((s, e)) => Seq::new((e - s) as nat, |k: int| silence),
        Cover::Transition((d, (s, e))) => fade_of(fade, samples.subrange(s as int, e as int), d, transition),
    }
}

/// A write of `want` samples taken from `offered` (silence when `silent`),
/// truncated to the room left under `capacity`.
pub open spec fn step_with<T>(acc: RouteAcc<T>, want: int, offered: Seq<T>, silent: bool, capacity: usize) -> RouteAcc<T> {
    if want == 0 {
        acc
    } else {
        let w = writable(capacity, acc.view.len() as int, want);
        RouteAcc {
            view: acc.view + offered.take(w),
            full: w < want,
            produced: if silent { acc.produced } else { saturating_add_u64(acc.produced, w) },
            zero_filled: if silent { saturating_add_u64(acc.zero_filled, w) } else { acc.zero_filled },
            wrote_real: acc.wrote_real || (!silent && w > 0),
            wrote_zero: acc.wrote_zero || (silent && w > 0),
        }
    }
}

/// The room report of a write of `want` samples (none when nothing is asked).
pub open spec fn step_events<T>(acc: RouteAcc<T>, want: int, capacity: usize, index: usize) -> Seq<BackpressureEvent> {
    if want == 0 {
        Seq::empty()
    } else {
        let w = writable(capacity, acc.view.len() as int, want);
        seq![BackpressureEvent::Pushed { instance_index: index, attempted: want as usize, pushed: w as usize, full: w < want }]
    }
}

/// One section written into an instance with the given capacity.
pub open spec fn section_step<T, F: Fn(Vec<T>, TransitionDirection, usize) -> Vec<T>>(
    acc: RouteAcc<T>,
    sec: Cover,
    samples: Seq<T>,
    capacity: usize,
    silence: T,
    fade: F,
    transition: usize,
) -> RouteAcc<T> {
    step_with(
        acc,
        section_want(sec, samples.len() as int),
        section_samples(sec, samples, silence, fade, transition),
        sec is Underlay,
        capacity,
    )
}

/// The room report of one section write (none when the section is skipped).
pub open spec fn section_events<T>(acc: RouteAcc<T>, sec: Cover, samples_len: int, capacity: usize, index: usize) -> Seq<BackpressureEvent> {
    step_events(acc, section_want(sec, samples_len), capacity, index)
}

/// The fade of a transition section gave as many samples as it was given.
pub open spec fn fade_fits<T, F: Fn(Vec<T>, TransitionDirection, usize) -> Vec<T>>(
    sec: Cover,
    samples: Seq<T>,
    fade: F,
    transition: usize,
) -> bool {
    match sec {
        Cover::Transition((d, (s, e))) => s < e && e <= samples.len() ==> fade_of(
            fade, samples.subrange(s as int, e as int), d, transition).len() == e - s,
        _ => true,
    }
}

/// Every transition section of `secs` had a fade of the right length.
pub open spec fn fades_fit<T, F: Fn(Vec<T>, TransitionDirection, usize) -> Vec<T>>(
    secs: Seq<Cover>,
    samples: Seq<T>,
    fade: F,
    transition: usize,
) -> bool {
    forall|k: int| 0 <= k < secs.len() ==> fade_fits(#[trigger] secs[k], samples, fade, transition)
}

/// The sections `secs` written in order.
pub open spec fn sections_acc<T, F: Fn(Vec<T>, TransitionDirection, usize) -> Vec<T>>(
    acc: RouteAcc<T>,
    secs: Seq<Cover>,
    samples: Seq<T>,
    capacity: usize,
    silence: T,
    fade: F,
    transition: usize,
) -> RouteAcc<T>
    decreases secs.len(),
{
    if secs.len() == 0 {
        acc
    } else {
        section_step(sections_acc(acc, secs.drop_last(), samples, capacity, silence, fade, transition), secs.last(), samples, capacity, silence, fade, transition)
    }
}

/// The room reports of writing the sections `secs` in order.
pub open spec fn sections_events<T, F: Fn(Vec<T>, TransitionDirection, usize) -> Vec<T>>(
    acc: RouteAcc<T>,
    secs: Seq<Cover>,
    samples: Seq<T>,
    capacity: usize,
    silence: T,
    fade: F,
    transition: usize,
    index: usize,
) -> Seq<BackpressureEvent>
    decreases secs.len(),
{
    if secs.len() == 0 {
        Seq::empty()
    } else {
        let prev = sections_acc(acc, secs.drop_last(), samples, capacity, silence, fade, transition);
        sections_events(acc, secs.drop_last(), samples, capacity, silence, fade, transition, index)
            + section_events(prev, secs.last(), samples.len() as int, capacity, index)
    }
}

/// The routing state of an instance, with the given written flags.
pub open spec fn acc_of<T: Copy>(inst: BufferInstance<T>, wrote_real: bool, wrote_zero: bool) -> RouteAcc<T> {
    RouteAcc {
        view: inst.buffer.view(),
        full: inst.full,
        produced: inst.produced_samples,
        zero_filled: inst.zero_filled_samples,
        wrote_real,
        wrote_zero,
    }
}

/// `b` keeps the identity, capacity, state and buffer validity of `a`.
pub open spec fn kept<T: Copy>(a: BufferInstance<T>, b: BufferInstance<T>) -> bool {
    &&& b.meta == a.meta
    &&& b.buffer_capacity_samples == a.buffer_capacity_samples
    &&& b.finished == a.finished
    &&& b.eof_reached_ms == a.eof_reached_ms
    &&& b.buffer.wf()
    &&& b.buffer.silence_value() == a.buffer.silence_value()
}

/// `b` is `a` with its buffer and counters replaced as `acc` says.
pub open spec fn routed<T: Copy>(a: BufferInstance<T>, b: BufferInstance<T>, acc: RouteAcc<T>) -> bool {
    &&& kept(a, b)
    &&& b.buffer.view() == acc.view
    &&& b.full == acc.full
    &&& b.produced_samples == acc.produced
    &&& b.zero_filled_samples == acc.zero_filled
}

/// The cover map of a packet of `len` samples for one instance.
pub open spec fn instance_sections(timing: PacketTiming, len: int, transition: usize) -> Seq<Cover> {
    spec_map_cover(timing.overlap@, len as usize, Some(transition))
}

/// The routing state of instance `inst` after all sections of a packet.
pub open spec fn routed_acc<T: Copy, F: Fn(Vec<T>, TransitionDirection, usize) -> Vec<T>>(
    inst: BufferInstance<T>,
    samples: Seq<T>,
    timing: PacketTiming,
    fade: F,
    transition: usize,
) -> RouteAcc<T> {
    sections_acc(
        acc_of(inst, false, false),
        instance_sections(timing, samples.len() as int, transition),
        samples,
        inst.buffer_capacity_samples,
        inst.buffer.silence_value(),
        fade,
        transition,
    )
}

/// The room reports of routing a packet into instance `inst` (index `index`).
pub open spec fn routed_events<T: Copy, F: Fn(Vec<T>, TransitionDirection, usize) -> Vec<T>>(
    inst: BufferInstance<T>,
    index: usize,
    samples: Seq<T>,
    timing: PacketTiming,
    fade: F,
    transition: usize,
) -> Seq<BackpressureEvent> {
    sections_events(
        acc_of(inst, false, false),
        instance_sections(timing, samples.len() as int, transition),
        samples,
        inst.buffer_capacity_samples,
        inst.buffer.silence_value(),
        fade,
        transition,
        index,
    )
}

/// A packet of `source` is offered to this instance.
pub open spec fn routes_to<T>(inst: BufferInstance<T>, source: SourceKeyView) -> bool {
    !inst.finished && inst.meta.source_key@ == source
}

impl<T: Copy> BufferMixer<T> {
    /// Write real samples `start_sample..end_sample` of the packet.
    fn write_overlap(
        samples: &[T],
        start_sample: usize,
        end_sample: usize,
        instance_index: usize,
        instance: &mut BufferInstance<T>,
        events: &mut Vec<BackpressureEvent>,
    ) -> (r: SectionWriteResult)
        requires
            old(instance).buffer.wf(),
        ensures
            kept(*old(instance), *final(instance)),
            acc_of(*final(instance), r.wrote_real, r.wrote_zero) == step_with(
                acc_of(*old(instance), false, false),
                section_want(Cover::Overlap((start_sample, end_sample)), samples@.len() as int),
                samples@.subrange(start_sample as int, end_sample as int),
                false,
                old(instance).buffer_capacity_samples,
            ),
            final(events)@ == old(events)@ + step_events(
                acc_of(*old(instance), false, false),
                section_want(Cover::Overlap((start_sample, end_sample)), samples@.len() as int),
                old(instance).buffer_capacity_samples,
                instance_index,
            ),
    {
        if start_sample >= end_sample || end_sample > samples.len() {
            return SectionWriteResult { wrote_real: false, wrote_zero: false };
        }
        let part = slice_subrange(samples, start_sample, end_sample);
        let capacity = instance.buffer_capacity_samples;
        let push = push_slice(&mut instance.buffer, capacity, part, &mut instance.full);
        events.push(BackpressureEvent::Pushed {
            instance_index,
            attempted: end_sample - start_sample,
            pushed: push.written_samples,
            full: instance.full,
        });
        instance.produced_samples = instance.produced_samples.saturating_add(push.written_samples as u64);
        SectionWriteResult { wrote_real: push.wrote_any, wrote_zero: false }
    }

    /// Write silence for `start_sample..end_sample` of the packet.
    fn write_underlay(
        start_sample: usize,
        end_sample: usize,
        instance_index: usize,
        instance: &mut BufferInstance<T>,
        events: &mut Vec<BackpressureEvent>,
    ) -> (r: SectionWriteResult)
        requires
            old(instance).buffer.wf(),
        ensures
            kept(*old(instance), *final(instance)),
            acc_of(*final(instance), r.wrote_real, r.wrote_zero) == step_with(
                acc_of(*old(instance), false, false),
                section_want(Cover::Underlay((start_sample, end_sample)), 0),
                Seq::new((end_sample - start_sample) as nat, |k: int| old(instance).buffer.silence_value()),
                true,
                old(instance).buffer_capacity_samples,
            ),
            final(events)@ == old(events)@ + step_events(
                acc_of(*old(instance), false, false),
                section_want(Cover::Underlay((start_sample, end_sample)), 0),
                old(instance).buffer_capacity_samples,
                instance_index,
            ),
    {
        let length = end_sample.saturating_sub(start_sample);
        if length == 0 {
            return SectionWriteResult { wrote_real: false, wrote_zero: false };
        }
        let ghost silence = instance.buffer.silence_value();
        let capacity = instance.buffer_capacity_samples;
        let push = push_zeros(&mut instance.buffer, capacity, length, &mut instance.full);
        proof {
            assert(Seq::new(push.written_samples as nat, |k: int| silence) =~= Seq::new(
                length as nat, |k: int| silence).take(push.written_samples as int));
        }
        events.push(BackpressureEvent::Pushed {
            instance_index,
            attempted: length,
            pushed: push.written_samples,
            full: instance.full,
        });
        instance.zero_filled_samples = instance.zero_filled_samples.saturating_add(push.written_samples as u64);
        SectionWriteResult { wrote_real: false, wrote_zero: push.wrote_any }
    }

    /// Write the faded samples `start_sample..end_sample` of the packet.
    fn write_transition<F: Fn(Vec<T>, TransitionDirection, usize) -> Vec<T>>(
        samples: &[T],
        cover_transition: usize,
        fade: &F,
        direction: TransitionDirection,
        start_sample: usize,
        end_sample: usize,
        instance_index: usize,
        instance: &mut BufferInstance<T>,
        events: &mut Vec<BackpressureEvent>,
    ) -> (r: SectionWriteResult)
        requires
            old(instance).buffer.wf(),
            fade_well_behaved(*fade),
        ensures
            kept(*old(instance), *final(instance)),
            acc_of(*final(instance), r.wrote_real, r.wrote_zero) == step_with(
                acc_of(*old(instance), false, false),
                section_want(Cover::Transition((direction, (start_sample, end_sample))), samples@.len() as int),
                fade_of(*fade, samples@.subrange(start_sample as int, end_sample as int), direction, cover_transition),
                false,
                old(instance).buffer_capacity_samples,
            ),
            fade_fits(Cover::Transition((direction, (start_sample, end_sample))), samples@, *fade, cover_transition),
            final(events)@ == old(events)@ + step_events(
                acc_of(*old(instance), false, false),
                section_want(Cover::Transition((direction, (start_sample, end_sample))), samples@.len() as int),
                old(instance).buffer_capacity_samples,
                instance_index,
            ),
    {
        if start_sample >= end_sample || end_sample > samples.len() {
            return SectionWriteResult { wrote_real: false, wrote_zero: false };
        }
        let slice_length = end_sample - start_sample;
        let slice = slice_to_vec(slice_subrange(samples, start_sample, end_sample));
        let ghost input = slice;
        let faded = fade(slice, direction, cover_transition);
        proof {
            let sub = samples@.subrange(start_sample as int, end_sample as int);
            assert(input@ == sub);
            assert(call_ensures(*fade, (input, direction, cover_transition), faded));
            let (o, a) = choose|o: Vec<T>, a: Vec<T>| a@ == sub && #[trigger] call_ensures(*fade, (a, direction, cover_transition), o);
            assert(o@ == faded@);
            assert(faded@ == fade_of(*fade, sub, direction, cover_transition));
        }
        let capacity = instance.buffer_capacity_samples;
        let push = push_owned_slice(&mut instance.buffer, capacity, faded, &mut instance.full);
        events.push(BackpressureEvent::Pushed {
            instance_index,
            attempted: slice_length,
            pushed: push.written_samples,
            full: instance.full,
        });
        instance.produced_samples = instance.produced_samples.saturating_add(push.written_samples as u64);
        SectionWriteResult { wrote_real: push.wrote_any, wrote_zero: false }
    }


    /// Write one cover section of a packet into an instance.
    fn route_cover_section<F: Fn(Vec<T>, TransitionDirection, usize) -> Vec<T>>(
        section: Cover,
        samples: &[T],
        cover_transition: usize,
        fade: &F,
        instance_index: usize,
        instance: &mut BufferInstance<T>,
        events: &mut Vec<BackpressureEvent>,
    ) -> (r: SectionWriteResult)
        requires
            old(instance).buffer.wf(),
            fade_well_behaved(*fade),
        ensures
            kept(*old(instance), *final(instance)),
            acc_of(*final(instance), r.wrote_real, r.wrote_zero) == section_step(
                acc_of(*old(instance), false, false),
                section,
                samples@,
                old(instance).buffer_capacity_samples,
                old(instance).buffer.silence_value(),
                *fade,
                cover_transition,
            ),
            final(events)@ == old(events)@ + section_events(
                acc_of(*old(instance), false, false),
                section,
                samples@.len() as int,
                old(instance).buffer_capacity_samples,
                instance_index,
            ),
            fade_fits(section, samples@, *fade, cover_transition),
    {
        match section {
            Cover::Overlap((start_sample, end_sample)) => {
                Self::write_overlap(samples, start_sample, end_sample, instance_index, instance, events)
            },
            Cover::Underlay((start_sample, end_sample)) => {
                Self::write_underlay(start_sample, end_sample, instance_index, instance, events)
            },
            Cover::Transition((direction, (start_sample, end_sample))) => {
                Self::write_transition(
                    samples,
                    cover_transition,
                    fade,
                    direction,
                    start_sample,
                    end_sample,
                    instance_index,
                    instance,
                    events,
                )
            },
        }
    }

    /// Write every section of a packet's cover map into one instance.
    fn route_sections<F: Fn(Vec<T>, TransitionDirection, usize) -> Vec<T>>(
        samples: &[T],
        timing: &PacketTiming,
        cover_transition: usize,
        fade: &F,
        instance_index: usize,
        instance: &mut BufferInstance<T>,
        events: &mut Vec<BackpressureEvent>,
    ) -> (r: SectionWriteResult)
        requires
            old(instance).buffer.wf(),
            fade_well_behaved(*fade),
            samples@.len() > 0 ==> cover_transition % 2 == 0,
        ensures
            routed(*old(instance), *final(instance), routed_acc(*old(instance), samples@, *timing, *fade, cover_transition)),
            r.wrote_real == routed_acc(*old(instance), samples@, *timing, *fade, cover_transition).wrote_real,
            r.wrote_zero == routed_acc(*old(instance), samples@, *timing, *fade, cover_transition).wrote_zero,
            final(events)@ == old(events)@ + routed_events(*old(instance), instance_index, samples@, *timing, *fade, cover_transition),
            fades_fit(instance_sections(*timing, samples@.len() as int, cover_transition), samples@, *fade, cover_transition),
    {
        let cover = map_cover(&timing.overlap, samples.len(), Some(cover_transition));
        let ghost inst0 = *instance;
        let ghost ev0 = events@;
        let ghost acc0 = acc_of(inst0, false, false);
        let ghost capacity = inst0.buffer_capacity_samples;
        let ghost silence = inst0.buffer.silence_value();
        let mut wrote_real = false;
        let mut wrote_zero = false;
        let mut k: usize = 0;
        while k < cover.len()
            invariant
                k <= cover@.len(),
                cover@ == instance_sections(*timing, samples@.len() as int, cover_transition),
                inst0 == *old(instance),
                acc0 == acc_of(inst0, false, false),
                capacity == inst0.buffer_capacity_samples,
                silence == inst0.buffer.silence_value(),
                ev0 == old(events)@,
                fade_well_behaved(*fade),
                kept(inst0, *instance),
                acc_of(*instance, wrote_real, wrote_zero) == sections_acc(
                    acc0, cover@.take(k as int), samples@, capacity, silence, *fade, cover_transition),
                events@ == ev0 + sections_events(
                    acc0, cover@.take(k as int), samples@, capacity, silence, *fade, cover_transition, instance_index),
                forall|q: int| 0 <= q < k ==> fade_fits(#[trigger] cover@[q], samples@, *fade, cover_transition),
            decreases cover.len() - k,
        {
            let section = cover[k];
            let ghost before = *instance;
            let ghost ev_before = events@;
            let res = Self::route_cover_section(section, samples, cover_transition, fade, instance_index, instance, events);
            proof {
                let t1 = cover@.take(k + 1);
                assert(t1.drop_last() == cover@.take(k as int));
                assert(t1.last() == section);
                assert(events@ == ev0 + sections_events(acc0, t1, samples@, capacity, silence, *fade, cover_transition, instance_index));
            }
            wrote_real = wrote_real || res.wrote_real;
            wrote_zero = wrote_zero || res.wrote_zero;
            k = k + 1;
        }
        proof {
            assert(cover@.take(cover@.len() as int) == cover@);
        }
        SectionWriteResult { wrote_real, wrote_zero }
    }


    /// Fade length in interleaved samples: `crossfade_ms` at the mixer's rate.
    pub open spec fn spec_cover_transition(&self) -> usize {
        ((self.crossfade_ms * self.sample_rate) / 1000) as usize
    }

    /// Room reports of routing a packet into the first `n` instances.
    pub open spec fn route_events<F: Fn(Vec<T>, TransitionDirection, usize) -> Vec<T>>(
        &self,
        samples: Seq<T>,
        source: SourceKeyView,
        timing: Seq<PacketTiming>,
        fade: F,
        n: int,
    ) -> Seq<BackpressureEvent>
        decreases n,
    {
        if n <= 0 {
            Seq::empty()
        } else {
            let prev = self.route_events(samples, source, timing, fade, n - 1);
            let inst = self.instances@[n - 1];
            if !routes_to(inst, source) {
                prev
            } else if timing[n - 1].past_window {
                prev.push(BackpressureEvent::Finished { instance_index: (n - 1) as usize })
            } else {
                prev + routed_events(inst, (n - 1) as usize, samples, timing[n - 1], fade, self.spec_cover_transition())
            }
        }
    }

    /// Ids of the first `n` instances that receive real (or faded) samples.
    pub open spec fn real_targets<F: Fn(Vec<T>, TransitionDirection, usize) -> Vec<T>>(
        &self,
        samples: Seq<T>,
        source: SourceKeyView,
        timing: Seq<PacketTiming>,
        fade: F,
        n: int,
    ) -> Seq<usize>
        decreases n,
    {
        if n <= 0 {
            Seq::empty()
        } else {
            let prev = self.real_targets(samples, source, timing, fade, n - 1);
            let inst = self.instances@[n - 1];
            if routes_to(inst, source) && !timing[n - 1].past_window
                && routed_acc(inst, samples, timing[n - 1], fade, self.spec_cover_transition()).wrote_real {
                prev.push(inst.meta.instance_id)
            } else {
                prev
            }
        }
    }

    /// Ids of the first `n` instances that receive silence.
    pub open spec fn zero_targets<F: Fn(Vec<T>, TransitionDirection, usize) -> Vec<T>>(
        &self,
        samples: Seq<T>,
        source: SourceKeyView,
        timing: Seq<PacketTiming>,
        fade: F,
        n: int,
    ) -> Seq<usize>
        decreases n,
    {
        if n <= 0 {
            Seq::empty()
        } else {
            let prev = self.zero_targets(samples, source, timing, fade, n - 1);
            let inst = self.instances@[n - 1];
            if routes_to(inst, source) && !timing[n - 1].past_window
                && routed_acc(inst, samples, timing[n - 1], fade, self.spec_cover_transition()).wrote_zero {
                prev.push(inst.meta.instance_id)
            } else {
                prev
            }
        }
    }

    /// What routing a packet does to instance `a` (giving `b`).
    pub open spec fn routed_instance<F: Fn(Vec<T>, TransitionDirection, usize) -> Vec<T>>(
        &self,
        a: BufferInstance<T>,
        b: BufferInstance<T>,
        samples: Seq<T>,
        source: SourceKeyView,
        timing: PacketTiming,
        fade: F,
    ) -> bool {
        if !routes_to(a, source) {
            b == a
        } else if timing.past_window {
            b == BufferInstance { finished: true, ..a }
        } else {
            routed(a, b, routed_acc(a, samples, timing, fade, self.spec_cover_transition()))
        }
    }

    /// Some instance would have this packet cut into a cover map.
    pub open spec fn needs_cover(&self, source: SourceKeyView, timing: Seq<PacketTiming>) -> bool {
        exists|i: int| 0 <= i < self.instances@.len() && routes_to(#[trigger] self.instances@[i], source)
            && !timing[i].past_window
    }

    /// Route one decoded packet of `source` into the instance buffers.
    ///
    /// `timing` gives, per instance, where the packet falls in time; `fade`
    /// fades a transition slice up or down over `cover_transition` samples.
    /// Packets shorter than one frame are ignored. Unfinished instances of
    /// the source that the packet has passed are finished; the others get
    /// the packet's cover map written, capacity permitting.
    pub fn route_packet<F: Fn(Vec<T>, TransitionDirection, usize) -> Vec<T>>(
        &mut self,
        samples: &[T],
        source: SourceKey,
        timing: &Vec<PacketTiming>,
        fade: &F,
        events: &mut Vec<BackpressureEvent>,
    ) -> (r: RouteDecision)
        requires
            old(self).wf(),
            timing@.len() == old(self).instances@.len(),
            old(self).crossfade_ms * old(self).sample_rate <= usize::MAX,
            fade_well_behaved(*fade),
            samples@.len() >= old(self).channels && old(self).needs_cover(source@, timing@)
                ==> old(self).spec_cover_transition() % 2 == 0,
        ensures
            final(self).wf(),
            final(self).instances@.len() == old(self).instances@.len(),
            final(self).track_instances == old(self).track_instances,
            final(self).slot_to_logical == old(self).slot_to_logical,
            final(self).consumed_samples == old(self).consumed_samples,
            final(self).sample_rate == old(self).sample_rate,
            final(self).channels == old(self).channels,
            final(self).mix_chunk_samples == old(self).mix_chunk_samples,
            final(self).crossfade_ms == old(self).crossfade_ms,
            samples@.len() < old(self).channels ==> {
                &&& final(self).instances@ == old(self).instances@
                &&& final(events)@ == old(events)@
                &&& r.sample_targets_written@ == Seq::<usize>::empty()
                &&& r.zero_fill_targets_written@ == Seq::<usize>::empty()
                &&& r.ignored
            },
            samples@.len() >= old(self).channels ==> {
                &&& forall|i: int| 0 <= i < old(self).instances@.len() ==> old(self).routed_instance(
                    old(self).instances@[i], #[trigger] final(self).instances@[i], samples@, source@, timing@[i], *fade)
                &&& final(events)@ == old(events)@ + old(self).route_events(samples@, source@, timing@, *fade,
                    old(self).instances@.len() as int)
                &&& r.sample_targets_written@ == old(self).real_targets(samples@, source@, timing@, *fade,
                    old(self).instances@.len() as int)
                &&& r.zero_fill_targets_written@ == old(self).zero_targets(samples@, source@, timing@, *fade,
                    old(self).instances@.len() as int)
                &&& r.ignored == (r.sample_targets_written@.len() == 0 && r.zero_fill_targets_written@.len() == 0)
                &&& forall|i: int| 0 <= i < old(self).instances@.len() && routes_to(old(self).instances@[i], source@)
                    && !timing@[i].past_window ==> fades_fit(instance_sections(#[trigger] timing@[i], samples@.len() as int,
                    old(self).spec_cover_transition()), samples@, *fade, old(self).spec_cover_transition())
            },
    {
        if samples.len() < self.channels {
            return RouteDecision { sample_targets_written: Vec::new(), zero_fill_targets_written: Vec::new(), ignored: true };
        }
        let cover_transition = self.crossfade_ms * (self.sample_rate as usize) / 1000;
        let ghost orig = *self;
        let ghost ev0 = events@;
        let mut real_ids: Vec<usize> = Vec::new();
        let mut zero_ids: Vec<usize> = Vec::new();
        let mut i: usize = 0;
        while i < self.instances.len()
            invariant
                i <= self.instances@.len(),
                self.instances@.len() == orig.instances@.len(),
                orig == *old(self),
                orig.wf(),
                timing@.len() == orig.instances@.len(),
                fade_well_behaved(*fade),
                cover_transition == orig.spec_cover_transition(),
                samples@.len() > 0,
                samples@.len() >= orig.channels && orig.needs_cover(source@, timing@)
                    ==> orig.spec_cover_transition() % 2 == 0,
                samples@.len() >= orig.channels,
                forall|k: int| 0 <= k < i ==> orig.routed_instance(
                    orig.instances@[k], #[trigger] self.instances@[k], samples@, source@, timing@[k], *fade),
                forall|k: int| i <= k < orig.instances@.len() ==> #[trigger] self.instances@[k] == orig.instances@[k],
                self.track_instances == orig.track_instances,
                self.slot_to_logical == orig.slot_to_logical,
                self.consumed_samples == orig.consumed_samples,
                self.sample_rate == orig.sample_rate,
                self.channels == orig.channels,
                self.mix_chunk_samples == orig.mix_chunk_samples,
                self.crossfade_ms == orig.crossfade_ms,
                events@ == ev0 + orig.route_events(samples@, source@, timing@, *fade, i as int),
                ev0 == old(events)@,
                real_ids@ == orig.real_targets(samples@, source@, timing@, *fade, i as int),
                zero_ids@ == orig.zero_targets(samples@, source@, timing@, *fade, i as int),
                forall|k: int| 0 <= k < i && routes_to(orig.instances@[k], source@) && !timing@[k].past_window
                    ==> fades_fit(instance_sections(#[trigger] timing@[k], samples@.len() as int, cover_transition), samples@, *fade,
                    cover_transition),
            decreases orig.instances@.len() - i,
        {
            let ghost a = orig.instances@[i as int];
            let offered = !self.instances[i].finished && self.instances[i].meta.source_key_matches(&source);
            if !offered {
                proof {
                    assert(!routes_to(a, source@));
                }
            } else if timing[i].past_window {
                self.instances[i].finished = true;
                events.push(BackpressureEvent::Finished { instance_index: i });
                proof {
                    assert(ev0 + orig.route_events(samples@, source@, timing@, *fade, i + 1) =~= (ev0 + orig.route_events(
                        samples@, source@, timing@, *fade, i as int)).push(BackpressureEvent::Finished { instance_index: i }));
                }
            } else {
                proof {
                    assert(orig.needs_cover(source@, timing@)) by {
                        assert(routes_to(orig.instances@[i as int], source@) && !timing@[i as int].past_window);
                    }
                    assert(a.buffer.wf());
                }
                let ghost ev_before = events@;
                let res = Self::route_sections(samples, &timing[i], cover_transition, fade, i, &mut self.instances[i], events);
                proof {
                    assert(ev0 + orig.route_events(samples@, source@, timing@, *fade, i + 1) =~= ev_before + routed_events(
                        a, i, samples@, timing@[i as int], *fade, cover_transition));
                }
                if res.wrote_real {
                    real_ids.push(self.instances[i].meta.instance_id);
                }
                if res.wrote_zero {
                    zero_ids.push(self.instances[i].meta.instance_id);
                }
            }
            i = i + 1;
        }
        proof {
            let v = orig.instances@;
            assert forall|i: int| 0 <= i < self.instances@.len() implies (#[trigger] self.instances@[i]).buffer.wf()
                && self.instances@[i].meta == v[i].meta by {
                assert(orig.routed_instance(v[i], self.instances@[i], samples@, source@, timing@[i], *fade));
                assert(v[i].buffer.wf());
            }
            assert forall|i: int| 0 <= i < self.instances@.len() implies (#[trigger] self.instances@[i]).meta.logical_track_index
                < self.track_instances@.len() && in_list(self.track_instances@[self.instances@[i].meta.logical_track_index as int]@, i) by {
                assert(self.instances@[i].meta == v[i].meta);
            }
            assert forall|t: int, j: int| 0 <= t < self.track_instances@.len() && 0 <= j < self.track_instances@[t]@.len()
                implies #[trigger] self.track_instances@[t]@[j] < self.instances@.len()
                    && self.instances@[self.track_instances@[t]@[j] as int].meta.logical_track_index == t by {
                let x = self.track_instances@[t]@[j] as int;
                assert(self.instances@[x].meta == v[x].meta);
            }
        }
        let ignored = real_ids.len() == 0 && zero_ids.len() == 0;
        RouteDecision { sample_targets_written: real_ids, zero_fill_targets_written: zero_ids, ignored }
    }


    /// Every instance named in a routing decision reads from the routed
    /// source: written-to ids belong to unfinished instances of `source`.
    pub proof fn lemma_targets_of_source<F: Fn(Vec<T>, TransitionDirection, usize) -> Vec<T>>(
        &self,
        samples: Seq<T>,
        source: SourceKeyView,
        timing: Seq<PacketTiming>,
        fade: F,
        n: int,
    )
        requires
            0 <= n <= self.instances@.len(),
        ensures
            forall|j: int| 0 <= j < self.real_targets(samples, source, timing, fade, n).len() ==> exists|i: int|
                0 <= i < n && routes_to(self.instances@[i], source) && #[trigger] self.real_targets(samples, source, timing, fade, n)[j]
                    == self.instances@[i].meta.instance_id,
            forall|j: int| 0 <= j < self.zero_targets(samples, source, timing, fade, n).len() ==> exists|i: int|
                0 <= i < n && routes_to(self.instances@[i], source) && #[trigger] self.zero_targets(samples, source, timing, fade, n)[j]
                    == self.instances@[i].meta.instance_id,
        decreases n,
    {
        if n > 0 {
            self.lemma_targets_of_source(samples, source, timing, fade, n - 1);
            let pr = self.real_targets(samples, source, timing, fade, n - 1);
            let pz = self.zero_targets(samples, source, timing, fade, n - 1);
            let r = self.real_targets(samples, source, timing, fade, n);
            let z = self.zero_targets(samples, source, timing, fade, n);
            assert forall|j: int| 0 <= j < r.len() implies exists|i: int|
                0 <= i < n && routes_to(self.instances@[i], source) && #[trigger] r[j] == self.instances@[i].meta.instance_id by {
                if j < pr.len() {
                    assert(r[j] == pr[j]);
                    let i = choose|i: int| 0 <= i < n - 1 && routes_to(self.instances@[i], source) && #[trigger] pr[j]
                        == self.instances@[i].meta.instance_id;
                    assert(r[j] == self.instances@[i].meta.instance_id);
                } else {
                    assert(r[j] == self.instances@[n - 1].meta.instance_id);
                }
            }
            assert forall|j: int| 0 <= j < z.len() implies exists|i: int|
                0 <= i < n && routes_to(self.instances@[i], source) && #[trigger] z[j] == self.instances@[i].meta.instance_id by {
                if j < pz.len() {
                    assert(z[j] == pz[j]);
                    let i = choose|i: int| 0 <= i < n - 1 && routes_to(self.instances@[i], source) && #[trigger] pz[j]
                        == self.instances@[i].meta.instance_id;
                    assert(z[j] == self.instances@[i].meta.instance_id);
                } else {
                    assert(z[j] == self.instances@[n - 1].meta.instance_id);
                }
            }
        }
    }
}

/// Writing sections never fills past the capacity (a capacity of zero
/// counts as one) when every fade keeps its length.
proof fn lemma_sections_within_capacity<T, F: Fn(Vec<T>, TransitionDirection, usize) -> Vec<T>>(
    acc: RouteAcc<T>,
    secs: Seq<Cover>,
    samples: Seq<T>,
    capacity: usize,
    silence: T,
    fade: F,
    transition: usize,
)
    requires
        acc.view.len() <= cap1(capacity),
        fades_fit(secs, samples, fade, transition),
    ensures
        sections_acc(acc, secs, samples, capacity, silence, fade, transition).view.len() <= cap1(capacity),
    decreases secs.len(),
{
    if secs.len() > 0 {
        let d = secs.drop_last();
        assert forall|k: int| 0 <= k < d.len() implies fade_fits(#[trigger] d[k], samples, fade, transition) by {
            assert(d[k] == secs[k]);
        }
        lemma_sections_within_capacity(acc, d, samples, capacity, silence, fade, transition);
        let prev = sections_acc(acc, d, samples, capacity, silence, fade, transition);
        let sec = secs.last();
        assert(fade_fits(secs[secs.len() - 1], samples, fade, transition));
        let want = section_want(sec, samples.len() as int);
        let offered = section_samples(sec, samples, silence, fade, transition);
        if want != 0 {
            assert(offered.len() >= want);
        }
    }
}

/// Routing a packet never fills an instance buffer past its capacity: if
/// every buffer was within capacity, every buffer still is.
pub proof fn lemma_route_within_capacity<T: Copy, F: Fn(Vec<T>, TransitionDirection, usize) -> Vec<T>>(
    m: BufferMixer<T>,
    after: Seq<BufferInstance<T>>,
    samples: Seq<T>,
    source: SourceKeyView,
    timing: Seq<PacketTiming>,
    fade: F,
)
    requires
        timing.len() == m.instances@.len(),
        after.len() == m.instances@.len(),
        forall|i: int| 0 <= i < m.instances@.len() ==> (#[trigger] m.instances@[i]).buffer.view().len()
            <= cap1(m.instances@[i].buffer_capacity_samples),
        forall|i: int| 0 <= i < m.instances@.len() ==> m.routed_instance(m.instances@[i], #[trigger] after[i],
            samples, source, timing[i], fade),
        forall|i: int| 0 <= i < m.instances@.len() && routes_to(m.instances@[i], source) && !timing[i].past_window
            ==> fades_fit(instance_sections(#[trigger] timing[i], samples.len() as int, m.spec_cover_transition()),
            samples, fade, m.spec_cover_transition()),
    ensures
        forall|i: int| 0 <= i < after.len() ==> (#[trigger] after[i]).buffer.view().len()
            <= cap1(after[i].buffer_capacity_samples),
{
    assert forall|i: int| 0 <= i < after.len() implies (#[trigger] after[i]).buffer.view().len()
        <= cap1(after[i].buffer_capacity_samples) by {
        let a = m.instances@[i];
        assert(m.routed_instance(a, after[i], samples, source, timing[i], fade));
        assert(a.buffer.view().len() <= cap1(a.buffer_capacity_samples));
        if routes_to(a, source) && !timing[i].past_window {
            assert(fades_fit(instance_sections(timing[i], samples.len() as int, m.spec_cover_transition()),
                samples, fade, m.spec_cover_transition()));
            lemma_sections_within_capacity(acc_of(a, false, false),
                instance_sections(timing[i], samples.len() as int, m.spec_cover_transition()), samples,
                a.buffer_capacity_samples, a.buffer.silence_value(), fade, m.spec_cover_transition());
        }
    }
}

} // verus!
