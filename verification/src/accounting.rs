//! The decode-backpressure state keeps, per instance, a copy of the
//! mixer's buffer fill and finished flag, updated only from the room
//! reports the mixer hands out. This module states that those reports are
//! enough: whatever the mixer does, applying what it reported keeps the
//! copy exact.

use vstd::prelude::*;

use crate::backpressure::{cap1, DecodeBackpressureInstance};
use crate::buffer_mixer::{backpressure_of, event_instances, BackpressureEvent, BufferInstance, BufferMixer};
use crate::cover_map::{Cover, TransitionDirection};
use crate::packet_router::{
    acc_of, fade_fits, fades_fit, instance_sections, routed_events,
    routes_to, section_events, section_samples, section_step, section_want, sections_acc, sections_events,
    PacketTiming, RouteAcc,
};
use crate::routing::{room, writable};
use crate::source_key::SourceKeyView;

verus! {

/// Instance accounting after applying `evs` in order.
pub open spec fn apply_events(s: Seq<DecodeBackpressureInstance>, evs: Seq<BackpressureEvent>) -> Seq<DecodeBackpressureInstance>
    decreases evs.len(),
{
    if evs.len() == 0 {
        s
    } else {
        event_instances(apply_events(s, evs.drop_last()), evs.last())
    }
}

/// The accounting of one instance matches its mixer buffer.
pub open spec fn mirrors_one<T: Copy>(d: DecodeBackpressureInstance, inst: BufferInstance<T>) -> bool {
    &&& d.buffered_samples == inst.buffer.view().len()
    &&& d.capacity_samples == inst.buffer_capacity_samples
    &&& d.finished == inst.finished
    &&& inst.buffer.view().len() <= cap1(inst.buffer_capacity_samples)
}

/// The accounting matches every mixer instance.
pub open spec fn mirrors<T: Copy>(s: Seq<DecodeBackpressureInstance>, insts: Seq<BufferInstance<T>>) -> bool {
    &&& s.len() == insts.len()
    &&& forall|i: int| 0 <= i < s.len() ==> mirrors_one(#[trigger] s[i], insts[i])
}

/// Every report of `evs` is about instance `k`.
pub open spec fn all_about(evs: Seq<BackpressureEvent>, k: int) -> bool {
    forall|j: int| 0 <= j < evs.len() ==> #[trigger] event_index(evs[j]) == k
}

/// The instance a report is about.
pub open spec fn event_index(e: BackpressureEvent) -> int {
    match e {
        BackpressureEvent::Pushed { instance_index, .. } => instance_index as int,
        BackpressureEvent::Popped { instance_index, .. } => instance_index as int,
        BackpressureEvent::Finished { instance_index } => instance_index as int,
    }
}

proof fn lemma_apply_append(s: Seq<DecodeBackpressureInstance>, a: Seq<BackpressureEvent>, b: Seq<BackpressureEvent>)
    ensures
        apply_events(s, a + b) == apply_events(apply_events(s, a), b),
    decreases b.len(),
{
    if b.len() == 0 {
        assert(a + b =~= a);
    } else {
        lemma_apply_append(s, a, b.drop_last());
        assert((a + b).drop_last() =~= a + b.drop_last());
        assert((a + b).last() == b.last());
    }
}

proof fn lemma_apply_len(s: Seq<DecodeBackpressureInstance>, evs: Seq<BackpressureEvent>)
    ensures
        apply_events(s, evs).len() == s.len(),
    decreases evs.len(),
{
    if evs.len() > 0 {
        lemma_apply_len(s, evs.drop_last());
    }
}

proof fn lemma_apply_other(s: Seq<DecodeBackpressureInstance>, evs: Seq<BackpressureEvent>, k: int, j: int)
    requires
        all_about(evs, k),
        0 <= j < s.len(),
        j != k,
    ensures
        apply_events(s, evs)[j] == s[j],
    decreases evs.len(),
{
    if evs.len() > 0 {
        let prev = evs.drop_last();
        assert(all_about(prev, k)) by {
            assert forall|q: int| 0 <= q < prev.len() implies #[trigger] event_index(prev[q]) == k by {
                assert(prev[q] == evs[q]);
            }
        }
        lemma_apply_other(s, prev, k, j);
        lemma_apply_len(s, prev);
        assert(event_index(evs[evs.len() - 1]) == k);
    }
}

/// One section write keeps the copy of instance `idx` exact.
proof fn lemma_section_mirrors<T, F: Fn(Vec<T>, TransitionDirection, usize) -> Vec<T>>(
    s: Seq<DecodeBackpressureInstance>,
    acc: RouteAcc<T>,
    sec: Cover,
    samples: Seq<T>,
    capacity: usize,
    silence: T,
    fade: F,
    t: usize,
    idx: usize,
)
    requires
        0 <= idx < s.len(),
        s[idx as int].buffered_samples == acc.view.len(),
        s[idx as int].capacity_samples == capacity,
        acc.view.len() <= cap1(capacity),
        fade_fits(sec, samples, fade, t),
    ensures
        apply_events(s, section_events(acc, sec, samples.len() as int, capacity, idx)).len() == s.len(),
        apply_events(s, section_events(acc, sec, samples.len() as int, capacity, idx))[idx as int].buffered_samples
            == section_step(acc, sec, samples, capacity, silence, fade, t).view.len(),
        apply_events(s, section_events(acc, sec, samples.len() as int, capacity, idx))[idx as int].capacity_samples == capacity,
        apply_events(s, section_events(acc, sec, samples.len() as int, capacity, idx))[idx as int].finished
            == s[idx as int].finished,
        section_step(acc, sec, samples, capacity, silence, fade, t).view.len() <= cap1(capacity),
        all_about(section_events(acc, sec, samples.len() as int, capacity, idx), idx as int),
{
    let want = section_want(sec, samples.len() as int);
    let evs = section_events(acc, sec, samples.len() as int, capacity, idx);
    if want == 0 {
        assert(evs =~= Seq::<BackpressureEvent>::empty());
        assert(apply_events(s, evs) == s);
    } else {
        let w = writable(capacity, acc.view.len() as int, want);
        let offered = section_samples(sec, samples, silence, fade, t);
        assert(offered.len() >= want) by {
            match sec {
                Cover::Overlap((a, b)) => {},
                Cover::Underlay((a, b)) => {},
                Cover::Transition((d, (a, b))) => {},
            }
        }
        assert(evs.drop_last() =~= Seq::<BackpressureEvent>::empty());
        assert(apply_events(s, evs.drop_last()) == s);
        assert(apply_events(s, evs) == event_instances(s, evs.last()));
        assert(w <= room(capacity, acc.view.len() as int));
        let e = BackpressureEvent::Pushed { instance_index: idx, attempted: want as usize, pushed: w as usize, full: w < want };
        assert(evs.last() == e);
        let o = s[idx as int];
        assert(event_instances(s, e) == s.update(idx as int, DecodeBackpressureInstance {
            reserved_samples: (if o.reserved_samples > want { o.reserved_samples - want } else { 0 }) as usize,
            buffered_samples: (if o.buffered_samples + w < cap1(o.capacity_samples) { o.buffered_samples + w } else {
                cap1(o.capacity_samples) }) as usize,
            ..o
        }));
        assert(section_step(acc, sec, samples, capacity, silence, fade, t).view.len() == acc.view.len() + w);
    }
}

/// Writing the sections `secs` keeps the copy of instance `idx` exact.
proof fn lemma_sections_mirror<T, F: Fn(Vec<T>, TransitionDirection, usize) -> Vec<T>>(
    s: Seq<DecodeBackpressureInstance>,
    acc: RouteAcc<T>,
    secs: Seq<Cover>,
    samples: Seq<T>,
    capacity: usize,
    silence: T,
    fade: F,
    t: usize,
    idx: usize,
)
    requires
        0 <= idx < s.len(),
        s[idx as int].buffered_samples == acc.view.len(),
        s[idx as int].capacity_samples == capacity,
        acc.view.len() <= cap1(capacity),
        fades_fit(secs, samples, fade, t),
    ensures
        apply_events(s, sections_events(acc, secs, samples, capacity, silence, fade, t, idx)).len() == s.len(),
        apply_events(s, sections_events(acc, secs, samples, capacity, silence, fade, t, idx))[idx as int].buffered_samples
            == sections_acc(acc, secs, samples, capacity, silence, fade, t).view.len(),
        apply_events(s, sections_events(acc, secs, samples, capacity, silence, fade, t, idx))[idx as int].capacity_samples == capacity,
        apply_events(s, sections_events(acc, secs, samples, capacity, silence, fade, t, idx))[idx as int].finished
            == s[idx as int].finished,
        sections_acc(acc, secs, samples, capacity, silence, fade, t).view.len() <= cap1(capacity),
        all_about(sections_events(acc, secs, samples, capacity, silence, fade, t, idx), idx as int),
    decreases secs.len(),
{
    let evs = sections_events(acc, secs, samples, capacity, silence, fade, t, idx);
    if secs.len() == 0 {
        assert(evs =~= Seq::<BackpressureEvent>::empty());
    } else {
        let init = secs.drop_last();
        assert(fades_fit(init, samples, fade, t)) by {
            assert forall|k: int| 0 <= k < init.len() implies fade_fits(#[trigger] init[k], samples, fade, t) by {
                assert(init[k] == secs[k]);
            }
        }
        assert(fade_fits(secs[secs.len() - 1], samples, fade, t));
        lemma_sections_mirror(s, acc, init, samples, capacity, silence, fade, t, idx);
        let prev_evs = sections_events(acc, init, samples, capacity, silence, fade, t, idx);
        let mid = apply_events(s, prev_evs);
        let prev_acc = sections_acc(acc, init, samples, capacity, silence, fade, t);
        lemma_section_mirrors(mid, prev_acc, secs.last(), samples, capacity, silence, fade, t, idx);
        let last_evs = section_events(prev_acc, secs.last(), samples.len() as int, capacity, idx);
        lemma_apply_append(s, prev_evs, last_evs);
        assert(all_about(evs, idx as int)) by {
            assert forall|j: int| 0 <= j < evs.len() implies #[trigger] event_index(evs[j]) == idx by {
                if j < prev_evs.len() {
                    assert(evs[j] == prev_evs[j]);
                } else {
                    assert(evs[j] == last_evs[j - prev_evs.len()]);
                }
            }
        }
    }
}

proof fn lemma_route_prefix<T: Copy, F: Fn(Vec<T>, TransitionDirection, usize) -> Vec<T>>(
    m: BufferMixer<T>,
    after: Seq<BufferInstance<T>>,
    samples: Seq<T>,
    source: SourceKeyView,
    timing: Seq<PacketTiming>,
    fade: F,
    s: Seq<DecodeBackpressureInstance>,
    n: int,
)
    requires
        0 <= n <= m.instances@.len(),
        mirrors(s, m.instances@),
        after.len() == m.instances@.len(),
        timing.len() == m.instances@.len(),
        forall|i: int| 0 <= i < m.instances@.len() ==> m.routed_instance(
            m.instances@[i], #[trigger] after[i], samples, source, timing[i], fade),
        forall|i: int| 0 <= i < m.instances@.len() && routes_to(m.instances@[i], source) && !timing[i].past_window
            ==> fades_fit(instance_sections(#[trigger] timing[i], samples.len() as int, m.spec_cover_transition()),
            samples, fade, m.spec_cover_transition()),
    ensures
        apply_events(s, m.route_events(samples, source, timing, fade, n)).len() == s.len(),
        forall|i: int| 0 <= i < n ==> mirrors_one(
            #[trigger] apply_events(s, m.route_events(samples, source, timing, fade, n))[i], after[i]),
        forall|i: int| n <= i < s.len() ==> #[trigger] apply_events(s, m.route_events(samples, source, timing, fade, n))[i] == s[i],
    decreases n,
{
    let t = m.spec_cover_transition();
    assert(m.instances.len() == m.instances@.len());
    if n == 0 {
        assert(m.route_events(samples, source, timing, fade, 0) =~= Seq::<BackpressureEvent>::empty());
    } else {
        lemma_route_prefix(m, after, samples, source, timing, fade, s, n - 1);
        let prev = m.route_events(samples, source, timing, fade, n - 1);
        let mid = apply_events(s, prev);
        let k = n - 1;
        let a = m.instances@[k];
        let cur = m.route_events(samples, source, timing, fade, n);
        assert(mid[k] == s[k]);
        assert(mirrors_one(s[k], a));
        assert(m.routed_instance(a, after[k], samples, source, timing[k], fade));
        let delta: Seq<BackpressureEvent> = if !routes_to(a, source) {
            Seq::empty()
        } else if timing[k].past_window {
            seq![BackpressureEvent::Finished { instance_index: k as usize }]
        } else {
            routed_events(a, k as usize, samples, timing[k], fade, t)
        };
        assert(cur =~= prev + delta);
        lemma_apply_append(s, prev, delta);
        lemma_apply_len(s, prev);
        if !routes_to(a, source) {
            assert(apply_events(mid, delta) == mid);
        } else if timing[k].past_window {
            assert(delta.drop_last() =~= Seq::<BackpressureEvent>::empty());
            assert(apply_events(mid, delta.drop_last()) == mid);
            assert(apply_events(mid, delta) == event_instances(mid, delta.last()));
            assert(all_about(delta, k)) by {
                assert forall|j: int| 0 <= j < delta.len() implies #[trigger] event_index(delta[j]) == k by {}
            }
        } else {
            assert(fades_fit(instance_sections(timing[k], samples.len() as int, t), samples, fade, t));
            assert(mid[k].buffered_samples == acc_of(a, false, false).view.len());
            lemma_sections_mirror(
                mid,
                acc_of(a, false, false),
                instance_sections(timing[k], samples.len() as int, t),
                samples,
                a.buffer_capacity_samples,
                a.buffer.silence_value(),
                fade,
                t,
                k as usize,
            );
        }
        let res = apply_events(mid, delta);
        assert(all_about(delta, k)) by {
            if !routes_to(a, source) {
            } else if timing[k].past_window {
                assert forall|j: int| 0 <= j < delta.len() implies #[trigger] event_index(delta[j]) == k by {}
            }
        }
        assert forall|i: int| 0 <= i < n implies mirrors_one(#[trigger] res[i], after[i]) by {
            if i < k {
                lemma_apply_other(mid, delta, k, i);
            }
        }
        assert forall|i: int| n <= i < s.len() implies #[trigger] res[i] == s[i] by {
            lemma_apply_other(mid, delta, k, i);
        }
    }
}

/// Applying the room reports of a routed packet keeps the backpressure
/// accounting equal to the mixer's buffers: if the per-instance buffered
/// counts, capacities and finished flags matched before the packet, they
/// match after it.
pub proof fn lemma_route_keeps_accounting<T: Copy, F: Fn(Vec<T>, TransitionDirection, usize) -> Vec<T>>(
    m: BufferMixer<T>,
    after: Seq<BufferInstance<T>>,
    samples: Seq<T>,
    source: SourceKeyView,
    timing: Seq<PacketTiming>,
    fade: F,
    s: Seq<DecodeBackpressureInstance>,
)
    requires
        mirrors(s, m.instances@),
        after.len() == m.instances@.len(),
        timing.len() == m.instances@.len(),
        forall|i: int| 0 <= i < m.instances@.len() ==> m.routed_instance(
            m.instances@[i], #[trigger] after[i], samples, source, timing[i], fade),
        forall|i: int| 0 <= i < m.instances@.len() && routes_to(m.instances@[i], source) && !timing[i].past_window
            ==> fades_fit(instance_sections(#[trigger] timing[i], samples.len() as int, m.spec_cover_transition()),
            samples, fade, m.spec_cover_transition()),
    ensures
        mirrors(apply_events(s, m.route_events(samples, source, timing, fade, m.instances@.len() as int)), after),
{
    lemma_route_prefix(m, after, samples, source, timing, fade, s, m.instances@.len() as int);
}

proof fn lemma_single_event(s: Seq<DecodeBackpressureInstance>, e: BackpressureEvent)
    ensures
        apply_events(s, seq![e]) == event_instances(s, e),
        all_about(seq![e], event_index(e)),
{
    let evs = seq![e];
    assert(evs.drop_last() =~= Seq::<BackpressureEvent>::empty());
    assert(apply_events(s, evs.drop_last()) == s);
    assert forall|j: int| 0 <= j < evs.len() implies #[trigger] event_index(evs[j]) == event_index(e) by {}
}

/// A finished report keeps the copy exact for an instance that finishes.
proof fn lemma_finish_one<T: Copy>(s: Seq<DecodeBackpressureInstance>, k: int, a: BufferInstance<T>, b: BufferInstance<T>)
    requires
        0 <= k < s.len(),
        k <= usize::MAX,
        mirrors_one(s[k], a),
        b.buffer == a.buffer,
        b.buffer_capacity_samples == a.buffer_capacity_samples,
        b.finished,
    ensures
        apply_events(s, seq![BackpressureEvent::Finished { instance_index: k as usize }]).len() == s.len(),
        mirrors_one(apply_events(s, seq![BackpressureEvent::Finished { instance_index: k as usize }])[k], b),
        all_about(seq![BackpressureEvent::Finished { instance_index: k as usize }], k),
{
    lemma_single_event(s, BackpressureEvent::Finished { instance_index: k as usize });
}

/// A pop report keeps the copy exact for an instance that gave up samples.
proof fn lemma_pop_one<T: Copy>(s: Seq<DecodeBackpressureInstance>, k: int, a: BufferInstance<T>, b: BufferInstance<T>, c: int)
    requires
        0 <= k < s.len(),
        k <= usize::MAX,
        c >= 0,
        mirrors_one(s[k], a),
        b.buffer.view() == a.buffer.view().skip(BufferMixer::<T>::take_count(a.buffer.view().len() as int, c)),
        b.buffer_capacity_samples == a.buffer_capacity_samples,
        b.finished == a.finished,
    ensures
        ({
            let e = BackpressureEvent::Popped {
                instance_index: k as usize,
                popped: BufferMixer::<T>::take_count(a.buffer.view().len() as int, c) as usize,
            };
            &&& apply_events(s, seq![e]).len() == s.len()
            &&& mirrors_one(apply_events(s, seq![e])[k], b)
            &&& all_about(seq![e], k)
        }),
{
    let e = BackpressureEvent::Popped {
        instance_index: k as usize,
        popped: BufferMixer::<T>::take_count(a.buffer.view().len() as int, c) as usize,
    };
    lemma_single_event(s, e);
}

proof fn lemma_mark_prefix<T: Copy>(m: BufferMixer<T>, s: Seq<DecodeBackpressureInstance>, n: int)
    requires
        0 <= n <= m.instances@.len(),
        mirrors(s, m.instances@),
    ensures
        apply_events(s, m.mark_events(n)).len() == s.len(),
        forall|i: int| 0 <= i < n ==> mirrors_one(#[trigger] apply_events(s, m.mark_events(n))[i],
            BufferMixer::<T>::marked(m.instances@[i], m.consumed_samples, m.sample_rate, m.channels)),
        forall|i: int| n <= i < s.len() ==> #[trigger] apply_events(s, m.mark_events(n))[i] == s[i],
    decreases n,
{
    assert(m.instances.len() == m.instances@.len());
    if n == 0 {
        assert(m.mark_events(0) =~= Seq::<BackpressureEvent>::empty());
    } else {
        let k = n - 1;
        lemma_mark_prefix(m, s, k);
        let prev = m.mark_events(k);
        let mid = apply_events(s, prev);
        let a = m.instances@[k];
        let b = BufferMixer::<T>::marked(a, m.consumed_samples, m.sample_rate, m.channels);
        assert(mid[k] == s[k]);
        let delta: Seq<BackpressureEvent> = if crate::buffer_mixer::spec_fully_past(a, m.consumed_samples, m.sample_rate, m.channels) {
            seq![BackpressureEvent::Finished { instance_index: k as usize }]
        } else {
            Seq::empty()
        };
        assert(m.mark_events(n) =~= prev + delta);
        lemma_apply_append(s, prev, delta);
        lemma_apply_len(s, prev);
        if delta.len() > 0 {
            lemma_finish_one(mid, k, a, b);
        } else {
            assert(apply_events(mid, delta) == mid);
            assert forall|j: int| 0 <= j < delta.len() implies #[trigger] event_index(delta[j]) == k by {}
        }
        let res = apply_events(mid, delta);
        assert forall|i: int| 0 <= i < n implies mirrors_one(#[trigger] res[i],
            BufferMixer::<T>::marked(m.instances@[i], m.consumed_samples, m.sample_rate, m.channels)) by {
            if i < k {
                lemma_apply_other(mid, delta, k, i);
            }
        }
        assert forall|i: int| n <= i < s.len() implies #[trigger] res[i] == s[i] by {
            lemma_apply_other(mid, delta, k, i);
        }
    }
}

proof fn lemma_pop_prefix<T: Copy>(
    m: BufferMixer<T>,
    after: Seq<BufferInstance<T>>,
    s: Seq<DecodeBackpressureInstance>,
    c: int,
    n: int,
)
    requires
        0 <= n <= m.instances@.len(),
        c >= 0,
        after.len() == m.instances@.len(),
        s.len() == m.instances@.len(),
        forall|i: int| 0 <= i < s.len() ==> mirrors_one(#[trigger] s[i],
            BufferMixer::<T>::marked(m.instances@[i], m.consumed_samples, m.sample_rate, m.channels)),
        forall|i: int| 0 <= i < m.instances@.len() ==> BufferMixer::<T>::taken(
            BufferMixer::<T>::marked(m.instances@[i], m.consumed_samples, m.sample_rate, m.channels),
            #[trigger] after[i], m.consumed_samples, m.sample_rate, m.channels, c),
    ensures
        apply_events(s, m.pop_events(c, n)).len() == s.len(),
        forall|i: int| 0 <= i < n ==> mirrors_one(#[trigger] apply_events(s, m.pop_events(c, n))[i], after[i]),
        forall|i: int| n <= i < s.len() ==> #[trigger] apply_events(s, m.pop_events(c, n))[i] == s[i],
    decreases n,
{
    assert(m.instances.len() == m.instances@.len());
    if n == 0 {
        assert(m.pop_events(c, 0) =~= Seq::<BackpressureEvent>::empty());
    } else {
        let k = n - 1;
        lemma_pop_prefix(m, after, s, c, k);
        let prev = m.pop_events(c, k);
        let mid = apply_events(s, prev);
        let a = m.instances@[k];
        let am = BufferMixer::<T>::marked(a, m.consumed_samples, m.sample_rate, m.channels);
        assert(mid[k] == s[k]);
        assert(mirrors_one(s[k], am));
        assert(BufferMixer::<T>::taken(am, after[k], m.consumed_samples, m.sample_rate, m.channels, c));
        let past = crate::buffer_mixer::spec_fully_past(a, m.consumed_samples, m.sample_rate, m.channels);
        let delta: Seq<BackpressureEvent> = if past {
            Seq::empty()
        } else {
            seq![BackpressureEvent::Popped {
                instance_index: k as usize,
                popped: BufferMixer::<T>::take_count(a.buffer.view().len() as int, c) as usize,
            }]
        };
        assert(m.pop_events(c, n) =~= prev + delta);
        lemma_apply_append(s, prev, delta);
        lemma_apply_len(s, prev);
        if past {
            assert(apply_events(mid, delta) == mid);
            assert forall|j: int| 0 <= j < delta.len() implies #[trigger] event_index(delta[j]) == k by {}
            assert(after[k].buffer.view() == am.buffer.view());
        } else {
            lemma_pop_one(mid, k, am, after[k], c);
        }
        let res = apply_events(mid, delta);
        assert forall|i: int| 0 <= i < n implies mirrors_one(#[trigger] res[i], after[i]) by {
            if i < k {
                lemma_apply_other(mid, delta, k, i);
            }
        }
        assert forall|i: int| n <= i < s.len() implies #[trigger] res[i] == s[i] by {
            lemma_apply_other(mid, delta, k, i);
        }
    }
}

/// Applying the room reports of a take keeps the backpressure accounting
/// equal to the mixer's buffers: instances found elapsed are reported
/// finished, and each instance that gave up samples reports how many.
pub proof fn lemma_take_keeps_accounting<T: Copy>(
    m: BufferMixer<T>,
    after: Seq<BufferInstance<T>>,
    c: int,
    s: Seq<DecodeBackpressureInstance>,
)
    requires
        mirrors(s, m.instances@),
        c >= 0,
        after.len() == m.instances@.len(),
        forall|i: int| 0 <= i < m.instances@.len() ==> BufferMixer::<T>::taken(
            BufferMixer::<T>::marked(m.instances@[i], m.consumed_samples, m.sample_rate, m.channels),
            #[trigger] after[i], m.consumed_samples, m.sample_rate, m.channels, c),
    ensures
        mirrors(apply_events(s, m.mark_events(m.instances@.len() as int) + m.pop_events(c, m.instances@.len() as int)), after),
{
    let n = m.instances@.len() as int;
    lemma_mark_prefix(m, s, n);
    let s1 = apply_events(s, m.mark_events(n));
    lemma_pop_prefix(m, after, s1, c, n);
    lemma_apply_append(s, m.mark_events(n), m.pop_events(c, n));
}

/// A take that stops after marking elapsed instances (no chunk taken)
/// also keeps the accounting exact.
pub proof fn lemma_mark_keeps_accounting<T: Copy>(m: BufferMixer<T>, s: Seq<DecodeBackpressureInstance>)
    requires
        mirrors(s, m.instances@),
    ensures
        mirrors(apply_events(s, m.mark_events(m.instances@.len() as int)),
            m.instances@.map_values(|inst: BufferInstance<T>| BufferMixer::<T>::marked(inst, m.consumed_samples, m.sample_rate, m.channels))),
{
    lemma_mark_prefix(m, s, m.instances@.len() as int);
}

proof fn lemma_finish_prefix<T: Copy>(
    insts: Seq<BufferInstance<T>>,
    source: Option<SourceKeyView>,
    eof_ms: u64,
    s: Seq<DecodeBackpressureInstance>,
    n: int,
)
    requires
        0 <= n <= insts.len(),
        insts.len() <= usize::MAX,
        mirrors(s, insts),
    ensures
        apply_events(s, BufferMixer::<T>::finish_events(insts, source, n)).len() == s.len(),
        forall|i: int| 0 <= i < n ==> mirrors_one(#[trigger] apply_events(s, BufferMixer::<T>::finish_events(insts, source, n))[i],
            BufferMixer::<T>::finished_by(insts[i], source, eof_ms)),
        forall|i: int| n <= i < s.len() ==> #[trigger] apply_events(s, BufferMixer::<T>::finish_events(insts, source, n))[i] == s[i],
    decreases n,
{
    if n == 0 {
        assert(BufferMixer::<T>::finish_events(insts, source, 0) =~= Seq::<BackpressureEvent>::empty());
    } else {
        let k = n - 1;
        lemma_finish_prefix(insts, source, eof_ms, s, k);
        let prev = BufferMixer::<T>::finish_events(insts, source, k);
        let mid = apply_events(s, prev);
        let a = insts[k];
        let b = BufferMixer::<T>::finished_by(a, source, eof_ms);
        assert(mid[k] == s[k]);
        let hit = !a.finished && (source matches Some(key) ==> a.meta.source_key@ == key);
        let delta: Seq<BackpressureEvent> = if hit {
            seq![BackpressureEvent::Finished { instance_index: k as usize }]
        } else {
            Seq::empty()
        };
        assert(BufferMixer::<T>::finish_events(insts, source, n) =~= prev + delta);
        lemma_apply_append(s, prev, delta);
        lemma_apply_len(s, prev);
        if hit {
            lemma_finish_one(mid, k, a, b);
        } else {
            assert(apply_events(mid, delta) == mid);
            assert forall|j: int| 0 <= j < delta.len() implies #[trigger] event_index(delta[j]) == k by {}
        }
        let res = apply_events(mid, delta);
        assert forall|i: int| 0 <= i < n implies mirrors_one(#[trigger] res[i],
            BufferMixer::<T>::finished_by(insts[i], source, eof_ms)) by {
            if i < k {
                lemma_apply_other(mid, delta, k, i);
            }
        }
        assert forall|i: int| n <= i < s.len() implies #[trigger] res[i] == s[i] by {
            lemma_apply_other(mid, delta, k, i);
        }
    }
}

/// Applying the room reports of a finish signal keeps the backpressure
/// accounting equal to the mixer's buffers.
pub proof fn lemma_finish_keeps_accounting<T: Copy>(
    m: BufferMixer<T>,
    source: Option<SourceKeyView>,
    eof_ms: u64,
    s: Seq<DecodeBackpressureInstance>,
)
    requires
        mirrors(s, m.instances@),
    ensures
        mirrors(apply_events(s, BufferMixer::<T>::finish_events(m.instances@, source, m.instances@.len() as int)),
            m.instances@.map_values(|inst: BufferInstance<T>| BufferMixer::<T>::finished_by(inst, source, eof_ms))),
{
    assert(m.instances.len() == m.instances@.len());
    lemma_finish_prefix(m.instances@, source, eof_ms, s, m.instances@.len() as int);
}

/// The state built from the mixer's instances starts out exact.
pub proof fn lemma_initial_accounting<T: Copy>(insts: Seq<BufferInstance<T>>)
    requires
        forall|i: int| 0 <= i < insts.len() ==> (#[trigger] insts[i]).buffer.view().len() <= cap1(insts[i].buffer_capacity_samples),
    ensures
        mirrors(insts.map_values(|inst: BufferInstance<T>| backpressure_of(inst)), insts),
{
}

} // verus!
