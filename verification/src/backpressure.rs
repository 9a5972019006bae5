//! Decode backpressure accounting.
//!
//! Decode workers reserve room for a packet across every unfinished
//! instance routed from their source before delivering it; the mixer
//! reports pushes, pops and finished instances back. This module holds the
//! accounting and the decisions; locking, waiting and waking belong to the
//! caller, which is told when waiters must be woken.

use vstd::prelude::*;

use crate::source_key::{SourceKey, SourceKeyView};

verus! {

/// Room accounting for one instance buffer.
#[derive(Debug, Clone, Copy)]
pub struct DecodeBackpressureInstance {
    pub capacity_samples: usize,
    pub buffered_samples: usize,
    pub reserved_samples: usize,
    pub finished: bool,
}

/// Shared backpressure state: per-instance room plus the source routing table.
#[derive(Debug)]
pub struct DecodeBackpressureState {
    pub shutdown: bool,
    pub waiting_threads: usize,
    pub startup_priority_target_samples: Option<usize>,
    pub instances: Vec<DecodeBackpressureInstance>,
    pub source_to_instances: Vec<(SourceKey, Vec<usize>)>,
}

/// Result of checking whether a source may reserve room.
#[derive(Debug, Clone, Copy)]
pub struct SourceRoomStatus {
    pub allowed: bool,
}

/// What a decode worker does after one room check.
#[derive(Debug, Clone, Copy, PartialEq, Eq, Structural)]
pub enum RoomDecision {
    /// Room was reserved; deliver the packet.
    Proceed,
    /// Shutdown or abort: stop decoding.
    Abort,
    /// Not enough room yet: wait for a wake-up and check again.
    Wait,
}

/// `i` occurs in `s`.
pub open spec fn in_list(s: Seq<usize>, i: int) -> bool {
    exists|w: int| 0 <= w < s.len() && #[trigger] s[w] == i
}

/// A capacity of zero counts as one.
pub open spec fn cap1(c: usize) -> int {
    if c == 0 { 1 } else { c as int }
}

/// Buffered plus reserved samples, capped at the capacity.
pub open spec fn occupied(inst: DecodeBackpressureInstance) -> int {
    let s = inst.buffered_samples + inst.reserved_samples;
    if s < inst.capacity_samples { s } else { inst.capacity_samples as int }
}

/// Room not yet buffered or reserved.
pub open spec fn free_room(inst: DecodeBackpressureInstance) -> int {
    if inst.capacity_samples > occupied(inst) { inst.capacity_samples - occupied(inst) } else { 0 }
}

/// Room a packet of `required` samples needs in this instance (at most its capacity).
pub open spec fn target_room(required: usize, inst: DecodeBackpressureInstance) -> int {
    if required < cap1(inst.capacity_samples) { required as int } else { cap1(inst.capacity_samples) }
}

/// The instance is below the startup fill target.
pub open spec fn startup_deficit(inst: DecodeBackpressureInstance, target: Option<usize>) -> bool {
    match target {
        Some(t) => occupied(inst) < (if t < cap1(inst.capacity_samples) { t as int } else { cap1(inst.capacity_samples) }),
        None => false,
    }
}

/// Reserved and buffered counts never exceed the capacity (at least one).
pub open spec fn inst_bounded(inst: DecodeBackpressureInstance) -> bool {
    inst.buffered_samples <= cap1(inst.capacity_samples) && inst.reserved_samples <= cap1(inst.capacity_samples)
}

pub open spec fn keys_unique(r: Seq<(SourceKey, Vec<usize>)>) -> bool {
    forall|i: int, j: int| 0 <= i < r.len() && 0 <= j < r.len() && i != j ==> #[trigger] r[i].0@ != #[trigger] r[j].0@
}

pub open spec fn lists_distinct(r: Seq<(SourceKey, Vec<usize>)>) -> bool {
    forall|i: int| 0 <= i < r.len() ==> (#[trigger] r[i]).1@.no_duplicates()
}

pub open spec fn has_key(r: Seq<(SourceKey, Vec<usize>)>, k: SourceKeyView) -> bool {
    exists|i: int| 0 <= i < r.len() && #[trigger] r[i].0@ == k
}

pub open spec fn key_pos(r: Seq<(SourceKey, Vec<usize>)>, k: SourceKeyView) -> int {
    choose|i: int| 0 <= i < r.len() && #[trigger] r[i].0@ == k
}

impl DecodeBackpressureState {
    /// Instances routed from source `k`, if the source is known.
    pub open spec fn routes(&self, k: SourceKeyView) -> Option<Seq<usize>> {
        let r = self.source_to_instances@;
        if has_key(r, k) { Some(r[key_pos(r, k)].1@) } else { None }
    }

    /// Each source appears once and routes each instance at most once.
    pub open spec fn wf(&self) -> bool {
        keys_unique(self.source_to_instances@) && lists_distinct(self.source_to_instances@)
    }

    /// Every instance's counts stay within its capacity.
    pub open spec fn bounded(&self) -> bool {
        forall|i: int| 0 <= i < self.instances@.len() ==> #[trigger] inst_bounded(self.instances@[i])
    }

    /// Indices routed from source `k` that name an unfinished instance.
    pub open spec fn live_route(&self, idx: usize) -> bool {
        idx < self.instances@.len() && !self.instances@[idx as int].finished
    }

    /// Some unfinished instance anywhere is below the startup target.
    pub open spec fn global_startup_deficit(&self) -> bool {
        exists|i: int| 0 <= i < self.instances@.len() && !(#[trigger] self.instances@[i]).finished
            && startup_deficit(self.instances@[i], self.startup_priority_target_samples)
    }

    /// Whether source `k` may reserve `required` samples now: every
    /// unfinished routed instance has room for the packet span, and while a
    /// startup deficit exists somewhere, only sources with a deficit proceed.
    pub open spec fn room_allowed(&self, k: SourceKeyView, required: usize) -> bool {
        match self.routes(k) {
            None => true,
            Some(idxs) => {
                if !(exists|j: int| 0 <= j < idxs.len() && self.live_route(#[trigger] idxs[j])) {
                    true
                } else {
                    &&& forall|j: int| 0 <= j < idxs.len() && self.live_route(#[trigger] idxs[j])
                        ==> free_room(self.instances@[idxs[j] as int]) >= target_room(required, self.instances@[idxs[j] as int])
                    &&& (!self.global_startup_deficit() || exists|j: int| 0 <= j < idxs.len()
                        && self.live_route(#[trigger] idxs[j])
                        && startup_deficit(self.instances@[idxs[j] as int], self.startup_priority_target_samples))
                }
            }
        }
    }

    /// The instance after reserving room for `required` samples of its source.
    pub open spec fn reserved_after(inst: DecodeBackpressureInstance, required: usize) -> DecodeBackpressureInstance {
        let s = inst.reserved_samples + target_room(required, inst);
        DecodeBackpressureInstance {
            reserved_samples: (if s < cap1(inst.capacity_samples) { s } else { cap1(inst.capacity_samples) }) as usize,
            ..inst
        }
    }

    /// An empty state: no instances, no routes, no waiters.
    pub fn new() -> (r: Self)
        ensures
            r.wf(),
            r.bounded(),
            !r.shutdown,
            r.waiting_threads == 0,
            r.startup_priority_target_samples is None,
            r.instances@.len() == 0,
            r.source_to_instances@.len() == 0,
            forall|k: SourceKeyView| r.routes(k) is None,
    {
        DecodeBackpressureState {
            shutdown: false,
            waiting_threads: 0,
            startup_priority_target_samples: None,
            instances: Vec::new(),
            source_to_instances: Vec::new(),
        }
    }

    fn find_route(&self, source: &SourceKey) -> (r: Option<usize>)
        requires
            self.wf(),
        ensures
            r matches Some(i) ==> i < self.source_to_instances@.len() && self.source_to_instances@[i as int].0@
                == source@ && self.routes(source@) == Some(self.source_to_instances@[i as int].1@),
            r is None ==> self.routes(source@) is None,
    {
        let mut i: usize = 0;
        while i < self.source_to_instances.len()
            invariant
                self.wf(),
                i <= self.source_to_instances@.len(),
                forall|j: int| 0 <= j < i ==> #[trigger] self.source_to_instances@[j].0@ != source@,
            decreases self.source_to_instances.len() - i,
        {
            if self.source_to_instances[i].0.same_as(source) {
                proof {
                    let r = self.source_to_instances@;
                    assert(r[i as int].0@ == source@);
                    assert(has_key(r, source@));
                    let p = key_pos(r, source@);
                    assert(r[p].0@ == source@);
                    if p != i {
                        assert(r[p].0@ != r[i as int].0@);
                    }
                    assert(p == i);
                }
                return Some(i);
            }
            i = i + 1;
        }
        None
    }

    /// Route instance `index` from `source` (no effect if already routed).
    pub fn route_instance(&mut self, source: SourceKey, index: usize)
        requires
            old(self).wf(),
        ensures
            final(self).wf(),
            final(self).shutdown == old(self).shutdown,
            final(self).waiting_threads == old(self).waiting_threads,
            final(self).startup_priority_target_samples == old(self).startup_priority_target_samples,
            final(self).instances == old(self).instances,
            final(self).routes(source@) == Some(
                match old(self).routes(source@) {
                    Some(l) => if l.contains(index) { l } else { l.push(index) },
                    None => seq![index],
                },
            ),
            forall|k: SourceKeyView| k != source@ ==> final(self).routes(k) == old(self).routes(k),
    {
        let ghost old_r = self.source_to_instances@;
        match self.find_route(&source) {
            Some(i) => {
                let (key, mut list) = self.source_to_instances.remove(i);
                let mut present = false;
                let mut j: usize = 0;
                while j < list.len()
                    invariant
                        j <= list@.len(),
                        present == (exists|w: int| 0 <= w < j && #[trigger] list@[w] == index),
                    decreases list.len() - j,
                {
                    if list[j] == index {
                        present = true;
                    }
                    j = j + 1;
                }
                let ghost old_list = list@;
                if !present {
                    list.push(index);
                }
                self.source_to_instances.insert(i, (key, list));
                proof {
                    let r = self.source_to_instances@;
                    assert(r =~= old_r.update(i as int, (key, list)));
                    assert forall|a: int, b: int| 0 <= a < r.len() && 0 <= b < r.len() && a != b implies
                        #[trigger] r[a].0@ != #[trigger] r[b].0@ by {
                        assert(r[a].0@ == old_r[a].0@);
                        assert(r[b].0@ == old_r[b].0@);
                    }
                    assert(r[i as int].0@ == source@);
                    if !present {
                        assert(list@.no_duplicates()) by {
                            assert(old_r[i as int].1@.no_duplicates());
                            assert forall|a: int, b: int| 0 <= a < list@.len() && 0 <= b < list@.len() && a != b
                                implies list@[a] != list@[b] by {
                                if a < old_list.len() && b < old_list.len() {
                                } else if a < old_list.len() {
                                    assert(old_list.contains(old_list[a]));
                                } else if b < old_list.len() {
                                    assert(old_list.contains(old_list[b]));
                                }
                            }
                        }
                    }
                    assert forall|a: int| 0 <= a < r.len() implies (#[trigger] r[a]).1@.no_duplicates() by {
                        if a != i { assert(r[a] == old_r[a]); }
                    }
                    assert(has_key(r, source@));
                    let p = key_pos(r, source@);
                    assert(r[p].0@ == source@);
                    assert(p == i);
                    assert forall|k: SourceKeyView| k != source@ implies self.routes(k) == old(self).routes(k) by {
                        if has_key(old_r, k) {
                            let q = key_pos(old_r, k);
                            assert(r[q].0@ == k);
                            assert(has_key(r, k));
                            let q2 = key_pos(r, k);
                            assert(old_r[q2].0@ == k);
                            assert(q2 == q);
                            assert(q != i);
                            assert(r[q] == old_r[q]);
                        } else {
                            if has_key(r, k) {
                                let q2 = key_pos(r, k);
                                assert(old_r[q2].0@ == k);
                            }
                        }
                    }
                }
            },
            None => {
                let mut list: Vec<usize> = Vec::new();
                list.push(index);
                self.source_to_instances.push((source, list));
                proof {
                    let r = self.source_to_instances@;
                    let n = old_r.len() as int;
                    assert(r[n].0@ == source@);
                    assert forall|a: int, b: int| 0 <= a < r.len() && 0 <= b < r.len() && a != b implies
                        #[trigger] r[a].0@ != #[trigger] r[b].0@ by {
                        if a < n && b < n {
                            assert(r[a] == old_r[a]);
                            assert(r[b] == old_r[b]);
                        } else if a < n {
                            assert(r[a] == old_r[a]);
                            assert(!has_key(old_r, source@));
                        } else {
                            assert(r[b] == old_r[b]);
                            assert(!has_key(old_r, source@));
                        }
                    }
                    assert(list@ =~= seq![index]);
                    assert forall|a: int| 0 <= a < r.len() implies (#[trigger] r[a]).1@.no_duplicates() by {
                        if a < n { assert(r[a] == old_r[a]); }
                    }
                    assert(has_key(r, source@));
                    let p = key_pos(r, source@);
                    assert(r[p].0@ == source@);
                    assert(p == n);
                    assert forall|k: SourceKeyView| k != source@ implies self.routes(k) == old(self).routes(k) by {
                        if has_key(old_r, k) {
                            let q = key_pos(old_r, k);
                            assert(r[q] == old_r[q]);
                            assert(has_key(r, k));
                            let q2 = key_pos(r, k);
                            if q2 < n { assert(r[q2] == old_r[q2]); }
                            assert(q2 == q);
                        } else {
                            if has_key(r, k) {
                                let q2 = key_pos(r, k);
                                if q2 < n { assert(r[q2] == old_r[q2]); }
                            }
                        }
                    }
                }
            },
        }
    }

    /// Check whether `source` may reserve `required` samples now.
    pub fn source_room_status(&self, source: &SourceKey, required_samples: usize) -> (r: SourceRoomStatus)
        requires
            self.wf(),
        ensures
            r.allowed == self.room_allowed(source@, required_samples),
    {
        let found = self.find_route(source);
        let Some(pos) = found else {
            return SourceRoomStatus { allowed: true };
        };
        let idxs = &self.source_to_instances[pos].1;
        let startup_target = self.startup_priority_target_samples;
        let mut saw_unfinished = false;
        let mut all_have_target_room = true;
        let mut source_has_startup_deficit = false;
        let mut k: usize = 0;
        while k < idxs.len()
            invariant
                k <= idxs@.len(),
                self.routes(source@) == Some(idxs@),
                startup_target == self.startup_priority_target_samples,
                saw_unfinished == (exists|j: int| 0 <= j < k && self.live_route(#[trigger] idxs@[j])),
                all_have_target_room == (forall|j: int| 0 <= j < k && self.live_route(#[trigger] idxs@[j])
                    ==> free_room(self.instances@[idxs@[j] as int]) >= target_room(required_samples, self.instances@[idxs@[j] as int])),
                source_has_startup_deficit == (exists|j: int| 0 <= j < k && self.live_route(#[trigger] idxs@[j])
                    && startup_deficit(self.instances@[idxs@[j] as int], startup_target)),
            decreases idxs.len() - k,
        {
            let index = idxs[k];
            let instance = if index < self.instances.len() { Some(&self.instances[index]) } else { None };
            update_source_room_state(
                instance,
                startup_target,
                required_samples,
                &mut saw_unfinished,
                &mut all_have_target_room,
                &mut source_has_startup_deficit,
            );
            proof {
                assert forall|j: int| 0 <= j < k + 1 && self.live_route(#[trigger] idxs@[j]) implies
                    (j < k || j == k) by {}
            }
            k = k + 1;
        }
        if !saw_unfinished {
            return SourceRoomStatus { allowed: true };
        }
        let mut global_deficit = false;
        let mut i: usize = 0;
        while i < self.instances.len()
            invariant
                i <= self.instances@.len(),
                startup_target == self.startup_priority_target_samples,
                global_deficit == (exists|j: int| 0 <= j < i && !(#[trigger] self.instances@[j]).finished
                    && startup_deficit(self.instances@[j], startup_target)),
            decreases self.instances.len() - i,
        {
            let inst = &self.instances[i];
            if !inst.finished && has_startup_deficit(inst, startup_target) {
                global_deficit = true;
            }
            i = i + 1;
        }
        let fairness = !global_deficit || source_has_startup_deficit;
        SourceRoomStatus { allowed: all_have_target_room && fairness }
    }

    /// Reserve room for a `required`-sample packet of `source` in every
    /// unfinished routed instance.
    pub fn reserve_source_room(&mut self, source: &SourceKey, required_samples: usize)
        requires
            old(self).wf(),
        ensures
            final(self).wf(),
            old(self).bounded() ==> final(self).bounded(),
            final(self).shutdown == old(self).shutdown,
            final(self).waiting_threads == old(self).waiting_threads,
            final(self).startup_priority_target_samples == old(self).startup_priority_target_samples,
            final(self).source_to_instances@ == old(self).source_to_instances@,
            final(self).instances@.len() == old(self).instances@.len(),
            forall|i: int| 0 <= i < old(self).instances@.len() ==> #[trigger] final(self).instances@[i] == (
                if old(self).routes(source@) matches Some(idxs) && in_list(idxs, i)
                    && !old(self).instances@[i].finished {
                    Self::reserved_after(old(self).instances@[i], required_samples)
                } else {
                    old(self).instances@[i]
                }),
    {
        let found = self.find_route(source);
        let Some(pos) = found else {
            return;
        };
        let idxs = self.source_to_instances[pos].1.clone();
        let ghost orig = self.instances@;
        proof {
            assert(lists_distinct(self.source_to_instances@));
            assert(self.source_to_instances@[pos as int].1@.no_duplicates());
        }
        let mut k: usize = 0;
        while k < idxs.len()
            invariant
                k <= idxs@.len(),
                idxs@.no_duplicates(),
                old(self).routes(source@) == Some(idxs@),
                orig == old(self).instances@,
                self.shutdown == old(self).shutdown,
                self.waiting_threads == old(self).waiting_threads,
                self.startup_priority_target_samples == old(self).startup_priority_target_samples,
                self.source_to_instances@ == old(self).source_to_instances@,
                self.instances@.len() == orig.len(),
                forall|i: int| 0 <= i < orig.len() ==> #[trigger] self.instances@[i] == (
                    if in_list(idxs@.take(k as int), i) && !orig[i].finished {
                        Self::reserved_after(orig[i], required_samples)
                    } else {
                        orig[i]
                    }),
            decreases idxs.len() - k,
        {
            let index = idxs[k];
            proof {
                assert(idxs@.take(k + 1) == idxs@.take(k as int).push(index));
                if in_list(idxs@.take(k as int), index as int) {
                    let w = choose|w: int| 0 <= w < idxs@.take(k as int).len() && #[trigger] idxs@.take(k as int)[w] == index as int;
                    assert(idxs@[w] == idxs@[k as int]);
                }
                assert forall|i: int| 0 <= i < orig.len() && i != index implies
                    #[trigger] in_list(idxs@.take(k + 1), i) == in_list(idxs@.take(k as int), i) by {
                    if in_list(idxs@.take(k + 1), i) {
                        let w = choose|w: int| 0 <= w < idxs@.take(k + 1).len() && #[trigger] idxs@.take(k + 1)[w] == i;
                        assert(w != k);
                        assert(idxs@.take(k as int)[w] == i);
                    }
                    if in_list(idxs@.take(k as int), i) {
                        let w = choose|w: int| 0 <= w < idxs@.take(k as int).len() && #[trigger] idxs@.take(k as int)[w] == i;
                        assert(idxs@.take(k + 1)[w] == i);
                    }
                }
                assert(idxs@.take(k + 1)[k as int] == index);
                assert(in_list(idxs@.take(k + 1), index as int));
            }
            if index < self.instances.len() {
                let inst = self.instances[index];
                if !inst.finished {
                    let cap = if inst.capacity_samples == 0 { 1 } else { inst.capacity_samples };
                    let reserve = if required_samples < cap { required_samples } else { cap };
                    let sum = if inst.reserved_samples > usize::MAX - reserve { usize::MAX } else { inst.reserved_samples + reserve };
                    let reserved = if sum < cap { sum } else { cap };
                    self.instances.set(index, DecodeBackpressureInstance { reserved_samples: reserved, ..inst });
                }
            }
            k = k + 1;
        }
        proof {
            assert(idxs@.take(idxs@.len() as int) == idxs@);
            if old(self).bounded() {
                assert forall|i: int| 0 <= i < self.instances@.len() implies #[trigger] inst_bounded(self.instances@[i]) by {
                    assert(inst_bounded(orig[i]));
                }
            }
        }
    }

    /// The decision of one room check: nothing to reserve proceeds,
    /// shutdown or abort stops, and otherwise the source proceeds when
    /// room is allowed and waits when not.
    pub open spec fn room_decision(&self, k: SourceKeyView, required: usize, abort: bool) -> RoomDecision {
        if required == 0 {
            RoomDecision::Proceed
        } else if self.shutdown || abort {
            RoomDecision::Abort
        } else if self.room_allowed(k, required) {
            RoomDecision::Proceed
        } else {
            RoomDecision::Wait
        }
    }

    /// One room check for a decode worker wanting to deliver `required`
    /// samples of `source`: proceed (reserving the room), abort, or wait.
    pub fn try_reserve_source_room(&mut self, source: &SourceKey, required_samples: usize, abort: bool) -> (r: RoomDecision)
        requires
            old(self).wf(),
        ensures
            r == old(self).room_decision(source@, required_samples, abort),
            final(self).wf(),
            old(self).bounded() ==> final(self).bounded(),
            required_samples == 0 ==> r == RoomDecision::Proceed && *final(self) == *old(self),
            required_samples > 0 && (old(self).shutdown || abort) ==> r == RoomDecision::Abort && *final(self) == *old(self),
            required_samples > 0 && !old(self).shutdown && !abort && !old(self).room_allowed(source@, required_samples)
                ==> r == RoomDecision::Wait && *final(self) == *old(self),
            required_samples > 0 && !old(self).shutdown && !abort && old(self).room_allowed(source@, required_samples)
                ==> r == RoomDecision::Proceed
                && final(self).shutdown == old(self).shutdown
                && final(self).waiting_threads == old(self).waiting_threads
                && final(self).startup_priority_target_samples == old(self).startup_priority_target_samples
                && final(self).source_to_instances@ == old(self).source_to_instances@
                && final(self).instances@.len() == old(self).instances@.len()
                && forall|i: int| 0 <= i < old(self).instances@.len() ==> #[trigger] final(self).instances@[i] == (
                    if old(self).routes(source@) matches Some(idxs) && in_list(idxs, i)
                        && !old(self).instances@[i].finished {
                        Self::reserved_after(old(self).instances@[i], required_samples)
                    } else {
                        old(self).instances@[i]
                    }),
    {
        if required_samples == 0 {
            return RoomDecision::Proceed;
        }
        if self.shutdown || abort {
            return RoomDecision::Abort;
        }
        let status = self.source_room_status(source, required_samples);
        if status.allowed {
            self.reserve_source_room(source, required_samples);
            RoomDecision::Proceed
        } else {
            RoomDecision::Wait
        }
    }

    /// Reconcile a reservation with what a routed write actually pushed.
    /// Returns whether waiting workers must be woken.
    pub fn on_samples_pushed(
        &mut self,
        instance_index: usize,
        attempted_samples: usize,
        pushed_samples: usize,
        is_full: bool,
    ) -> (notify: bool)
        ensures
            attempted_samples == 0 && pushed_samples == 0 && !is_full ==> !notify && *final(self) == *old(self),
            !(attempted_samples == 0 && pushed_samples == 0 && !is_full) ==> notify == (attempted_samples > 0
                || pushed_samples > 0 || !is_full),
            final(self).instances@.len() == old(self).instances@.len(),
            forall|i: int| 0 <= i < old(self).instances@.len() && i != instance_index ==>
                #[trigger] final(self).instances@[i] == old(self).instances@[i],
            !(attempted_samples == 0 && pushed_samples == 0 && !is_full) && instance_index < old(self).instances@.len()
                ==> ({
                let o = old(self).instances@[instance_index as int];
                let n = final(self).instances@[instance_index as int];
                let b = o.buffered_samples + pushed_samples;
                &&& n.reserved_samples == (if o.reserved_samples > attempted_samples {
                    o.reserved_samples - attempted_samples
                } else {
                    0
                })
                &&& n.buffered_samples == (if b < cap1(o.capacity_samples) { b } else { cap1(o.capacity_samples) })
                &&& n.capacity_samples == o.capacity_samples
                &&& n.finished == o.finished
            }),
            old(self).bounded() ==> final(self).bounded(),
            final(self).shutdown == old(self).shutdown,
            final(self).waiting_threads == old(self).waiting_threads,
            final(self).startup_priority_target_samples == old(self).startup_priority_target_samples,
            final(self).source_to_instances@ == old(self).source_to_instances@,
    {
        if attempted_samples == 0 && pushed_samples == 0 && !is_full {
            return false;
        }
        if instance_index < self.instances.len() {
            let inst = self.instances[instance_index];
            let cap = if inst.capacity_samples == 0 { 1 } else { inst.capacity_samples };
            let reserved = if inst.reserved_samples > attempted_samples {
                inst.reserved_samples - attempted_samples
            } else {
                0
            };
            let sum = if inst.buffered_samples > usize::MAX - pushed_samples {
                usize::MAX
            } else {
                inst.buffered_samples + pushed_samples
            };
            let buffered = if sum < cap { sum } else { cap };
            self.instances.set(
                instance_index,
                DecodeBackpressureInstance { reserved_samples: reserved, buffered_samples: buffered, ..inst },
            );
            proof {
                if old(self).bounded() {
                    assert forall|i: int| 0 <= i < self.instances@.len() implies #[trigger] inst_bounded(self.instances@[i]) by {
                        if i != instance_index { assert(inst_bounded(old(self).instances@[i])); }
                        else { assert(inst_bounded(old(self).instances@[i])); }
                    }
                }
            }
        }
        attempted_samples > 0 || pushed_samples > 0 || !is_full
    }

    /// Record samples consumed from an instance buffer.
    /// Returns whether waiting workers must be woken.
    pub fn on_samples_popped(&mut self, instance_index: usize, popped_samples: usize) -> (notify: bool)
        ensures
            notify == (popped_samples > 0),
            popped_samples == 0 ==> *final(self) == *old(self),
            final(self).instances@.len() == old(self).instances@.len(),
            forall|i: int| 0 <= i < old(self).instances@.len() ==> #[trigger] final(self).instances@[i] == (
                if i == instance_index {
                    let o = old(self).instances@[i];
                    DecodeBackpressureInstance {
                        buffered_samples: (if o.buffered_samples > popped_samples {
                            o.buffered_samples - popped_samples
                        } else {
                            0
                        }) as usize,
                        ..o
                    }
                } else {
                    old(self).instances@[i]
                }),
            old(self).bounded() ==> final(self).bounded(),
            final(self).shutdown == old(self).shutdown,
            final(self).waiting_threads == old(self).waiting_threads,
            final(self).startup_priority_target_samples == old(self).startup_priority_target_samples,
            final(self).source_to_instances@ == old(self).source_to_instances@,
    {
        if popped_samples == 0 {
            return false;
        }
        if instance_index < self.instances.len() {
            let inst = self.instances[instance_index];
            let buffered = if inst.buffered_samples > popped_samples { inst.buffered_samples - popped_samples } else { 0 };
            self.instances.set(instance_index, DecodeBackpressureInstance { buffered_samples: buffered, ..inst });
            proof {
                if old(self).bounded() {
                    assert forall|i: int| 0 <= i < self.instances@.len() implies #[trigger] inst_bounded(self.instances@[i]) by {
                        assert(inst_bounded(old(self).instances@[i]));
                    }
                }
            }
        }
        true
    }

    /// Mark an instance finished so it no longer blocks room checks; its
    /// reservation is dropped. Returns whether waiting workers must be woken.
    pub fn on_finished(&mut self, instance_index: usize) -> (notify: bool)
        ensures
            notify == (instance_index < old(self).instances@.len() && !old(self).instances@[instance_index as int].finished),
            final(self).instances@.len() == old(self).instances@.len(),
            forall|i: int| 0 <= i < old(self).instances@.len() ==> #[trigger] final(self).instances@[i] == (
                if i == instance_index && !old(self).instances@[i].finished {
                    DecodeBackpressureInstance { finished: true, reserved_samples: 0, ..old(self).instances@[i] }
                } else {
                    old(self).instances@[i]
                }),
            old(self).bounded() ==> final(self).bounded(),
            final(self).shutdown == old(self).shutdown,
            final(self).waiting_threads == old(self).waiting_threads,
            final(self).startup_priority_target_samples == old(self).startup_priority_target_samples,
            final(self).source_to_instances@ == old(self).source_to_instances@,
    {
        if instance_index < self.instances.len() {
            let inst = self.instances[instance_index];
            if !inst.finished {
                self.instances.set(
                    instance_index,
                    DecodeBackpressureInstance { finished: true, reserved_samples: 0, ..inst },
                );
                proof {
                    if old(self).bounded() {
                        assert forall|i: int| 0 <= i < self.instances@.len() implies #[trigger] inst_bounded(self.instances@[i]) by {
                            assert(inst_bounded(old(self).instances@[i]));
                        }
                    }
                }
                return true;
            }
        }
        false
    }

    /// Force every later room check to abort. Waiting workers must be woken.
    pub fn shutdown(&mut self) -> (notify: bool)
        ensures
            notify,
            *final(self) == (Self { shutdown: true, ..*old(self) }),
    {
        self.shutdown = true;
        true
    }

    /// True when some decode worker is waiting for room.
    pub fn has_waiters(&self) -> (r: bool)
        ensures
            r == (self.waiting_threads > 0),
    {
        self.waiting_threads > 0
    }

    /// Enable startup fairness with a per-instance fill target (at least one).
    /// Waiting workers must be woken.
    pub fn enable_startup_priority(&mut self, target_samples: usize) -> (notify: bool)
        ensures
            notify,
            *final(self) == (Self {
                startup_priority_target_samples: Some(if target_samples == 0 { 1 } else { target_samples }),
                ..*old(self)
            }),
    {
        self.startup_priority_target_samples = Some(if target_samples == 0 { 1 } else { target_samples });
        true
    }

    /// Disable startup fairness. Waiting workers must be woken.
    pub fn disable_startup_priority(&mut self) -> (notify: bool)
        ensures
            notify,
            *final(self) == (Self { startup_priority_target_samples: None, ..*old(self) }),
    {
        self.startup_priority_target_samples = None;
        true
    }

    /// A worker starts waiting for room.
    pub fn begin_wait(&mut self)
        ensures
            final(self).waiting_threads == (if old(self).waiting_threads == usize::MAX {
                usize::MAX as int
            } else {
                old(self).waiting_threads + 1
            }),
            *final(self) == (Self { waiting_threads: final(self).waiting_threads, ..*old(self) }),
    {
        if self.waiting_threads < usize::MAX {
            self.waiting_threads = self.waiting_threads + 1;
        }
    }

    /// A worker woke up from waiting for room.
    pub fn end_wait(&mut self)
        ensures
            final(self).waiting_threads == (if old(self).waiting_threads == 0 {
                0
            } else {
                old(self).waiting_threads - 1
            }),
            *final(self) == (Self { waiting_threads: final(self).waiting_threads, ..*old(self) }),
    {
        if self.waiting_threads > 0 {
            self.waiting_threads = self.waiting_threads - 1;
        }
    }
}


impl Default for DecodeBackpressureState {
    /// An empty state, as [`DecodeBackpressureState::new`].
    fn default() -> (r: Self)
        ensures
            r.wf(),
            r.bounded(),
            !r.shutdown,
            r.waiting_threads == 0,
            r.startup_priority_target_samples is None,
            r.instances@.len() == 0,
            r.source_to_instances@.len() == 0,
            forall|k: SourceKeyView| r.routes(k) is None,
    {
        Self::new()
    }
}

/// After a shutdown every room check that asks for samples aborts,
/// whatever the source and the room left.
pub proof fn lemma_shutdown_aborts(state: DecodeBackpressureState, k: SourceKeyView, required: usize, abort: bool)
    requires
        required > 0,
    ensures
        (DecodeBackpressureState { shutdown: true, ..state }).room_decision(k, required, abort) == RoomDecision::Abort,
{
}

/// Finished instances never hold a source back: when every instance
/// routed from `k` is finished, room is allowed for any request.
pub proof fn lemma_finished_never_block(state: DecodeBackpressureState, k: SourceKeyView, required: usize)
    requires
        state.routes(k) matches Some(idxs) ==> forall|j: int| 0 <= j < idxs.len() ==> {
            let i = #[trigger] idxs[j];
            i < state.instances@.len() ==> state.instances@[i as int].finished
        },
    ensures
        state.room_allowed(k, required),
{
}

/// Room is all-or-nothing over a source's instances: if any unfinished
/// instance routed from `k` lacks room for the packet (its free room is
/// below the request, capped at its capacity), the source may not reserve,
/// however much room the others have.
pub proof fn lemma_every_instance_needs_room(state: DecodeBackpressureState, k: SourceKeyView, required: usize, j: int)
    requires
        state.routes(k) matches Some(idxs) && 0 <= j < idxs.len() && idxs[j] < state.instances@.len()
            && !state.instances@[idxs[j] as int].finished
            && free_room(state.instances@[idxs[j] as int]) < target_room(required, state.instances@[idxs[j] as int]),
    ensures
        !state.room_allowed(k, required),
        !state.shutdown ==> state.room_decision(k, required, false) != RoomDecision::Proceed,
{
    let idxs = state.routes(k)->0;
    assert(state.live_route(idxs[j]));
}

/// When every unfinished instance routed from `k` has room for the packet
/// and no startup target is set, the source may reserve.
pub proof fn lemma_room_when_all_have_room(state: DecodeBackpressureState, k: SourceKeyView, required: usize)
    requires
        state.startup_priority_target_samples is None,
        state.routes(k) matches Some(idxs) ==> forall|j: int| 0 <= j < idxs.len() && #[trigger] idxs[j]
            < state.instances@.len() && !state.instances@[idxs[j] as int].finished
            ==> free_room(state.instances@[idxs[j] as int]) >= target_room(required, state.instances@[idxs[j] as int]),
    ensures
        state.room_allowed(k, required),
{
    assert(!state.global_startup_deficit());
}

/// Buffered plus reserved samples of an instance, capped at its capacity.
pub fn occupied_samples(instance: &DecodeBackpressureInstance) -> (r: usize)
    ensures
        r == occupied(*instance),
{
    let sum = if instance.buffered_samples > usize::MAX - instance.reserved_samples {
        usize::MAX
    } else {
        instance.buffered_samples + instance.reserved_samples
    };
    if sum < instance.capacity_samples { sum } else { instance.capacity_samples }
}

fn has_startup_deficit(instance: &DecodeBackpressureInstance, startup_target: Option<usize>) -> (r: bool)
    ensures
        r == startup_deficit(*instance, startup_target),
{
    match startup_target {
        Some(target) => {
            let cap = if instance.capacity_samples == 0 { 1 } else { instance.capacity_samples };
            let t = if target < cap { target } else { cap };
            occupied_samples(instance) < t
        },
        None => false,
    }
}

/// Fold one routed instance into the running room check of its source.
pub fn update_source_room_state(
    instance: Option<&DecodeBackpressureInstance>,
    startup_target: Option<usize>,
    required_samples: usize,
    saw_unfinished: &mut bool,
    all_have_target_room: &mut bool,
    source_has_startup_deficit: &mut bool,
)
    ensures
        match instance {
            Some(inst) if !inst.finished => {
                &&& *final(saw_unfinished)
                &&& *final(all_have_target_room) == (*old(all_have_target_room) && free_room(*inst)
                    >= target_room(required_samples, *inst))
                &&& *final(source_has_startup_deficit) == (*old(source_has_startup_deficit)
                    || startup_deficit(*inst, startup_target))
            },
            _ => {
                &&& *final(saw_unfinished) == *old(saw_unfinished)
                &&& *final(all_have_target_room) == *old(all_have_target_room)
                &&& *final(source_has_startup_deficit) == *old(source_has_startup_deficit)
            },
        },
{
    let Some(instance) = instance else {
        return;
    };
    if instance.finished {
        return;
    }
    *saw_unfinished = true;
    let occupied = occupied_samples(instance);
    let free = if instance.capacity_samples > occupied { instance.capacity_samples - occupied } else { 0 };
    if has_startup_deficit(instance, startup_target) {
        *source_has_startup_deficit = true;
    }
    let cap = if instance.capacity_samples == 0 { 1 } else { instance.capacity_samples };
    let target_room = if required_samples < cap { required_samples } else { cap };
    *all_have_target_room = *all_have_target_room && free >= target_room;
}

} // verus!
