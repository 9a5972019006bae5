//! Per-track sample rings of the track-buffer engine.
//!
//! Each container track key owns a bounded ring of samples (its decoded
//! audio, waiting to be mixed) and the engine keeps one more ring for the
//! tail of its effects. Decoders push samples and report finished tracks;
//! the receiver drops empty rings of finished tracks, waits for the start
//! threshold, then takes the same number of samples from every ring.

use dasp_ring_buffer::Bounded;
use vstd::prelude::*;

use crate::sample_ring::{
    pushed_items, ring_capacity, ring_items, ring_len, ring_ok, ring_pop, ring_push, ring_with_capacity,
};
use crate::shuffle_schedule::{contains_key, key_in, min_remaining_len, receiver_step, receiver_view, ReceiverStep};

verus! {

/// The ring of one track key.
pub struct TrackRing {
    pub key: u16,
    pub ring: Bounded<Vec<u32>>,
}

/// Track rings, the keys of tracks that finished decoding, and the effect
/// tail.
pub struct TrackBuffers {
    pub rings: Vec<TrackRing>,
    pub finished: Vec<u16>,
    pub tail: Bounded<Vec<u32>>,
}

/// The keys of `rings`, in order.
pub open spec fn ring_keys(rings: Seq<TrackRing>) -> Seq<u16> {
    rings.map_values(|r: TrackRing| r.key)
}

/// Each key occurs once.
pub open spec fn unique_keys(keys: Seq<u16>) -> bool {
    forall|i: int, j: int| 0 <= i < j < keys.len() ==> #[trigger] keys[i] != #[trigger] keys[j]
}

/// The 16-bit track keys of `keys`, each once, in order of first
/// occurrence.
pub open spec fn key_list(keys: Seq<u32>) -> Seq<u16>
    decreases keys.len(),
{
    if keys.len() == 0 {
        Seq::empty()
    } else {
        let prev = key_list(keys.drop_last());
        let k = keys.last() as u16;
        if prev.contains(k) { prev } else { prev.push(k) }
    }
}

/// The items of a ring after pushing each of `xs` in turn.
pub open spec fn pushed_all(items: Seq<u32>, capacity: nat, xs: Seq<u32>) -> Seq<u32>
    decreases xs.len(),
{
    if xs.len() == 0 {
        items
    } else {
        pushed_items(pushed_all(items, capacity, xs.drop_last()), capacity, xs.last())
    }
}

/// A ring keeps the latest samples: after pushing `xs` onto a ring holding
/// `items`, it holds the last `capacity` of `items` followed by `xs` (all of
/// them when they fit).
pub proof fn lemma_ring_keeps_latest(items: Seq<u32>, capacity: nat, xs: Seq<u32>)
    requires
        capacity > 0,
        items.len() <= capacity,
    ensures
        pushed_all(items, capacity, xs) == (items + xs).skip(
            if items.len() + xs.len() > capacity { items.len() + xs.len() - capacity } else { 0 },
        ),
    decreases xs.len(),
{
    let all = items + xs;
    if xs.len() == 0 {
        assert(all.skip(0) =~= items);
    } else {
        let init = xs.drop_last();
        let x = xs.last();
        lemma_ring_keeps_latest(items, capacity, init);
        let l1 = items.len() + init.len();
        let e1: int = if l1 > capacity { l1 - capacity } else { 0 };
        let p = pushed_all(items, capacity, init);
        assert((items + init) =~= all.take(all.len() - 1));
        assert(p == (items + init).skip(e1));
        if p.len() >= capacity {
            assert(p.drop_first().push(x) =~= all.skip(e1 + 1));
        } else {
            assert(p.push(x) =~= all.skip(0));
        }
    }
}

/// `(key, buffered samples)` for each ring.
pub open spec fn ring_levels(rings: Seq<TrackRing>) -> Seq<(u16, usize)> {
    rings.map_values(|r: TrackRing| (r.key, ring_items(r.ring).len() as usize))
}

/// A ring stays: it still holds samples or its track is still decoding.
pub open spec fn stays(t: TrackRing, finished: Seq<u16>) -> bool {
    !(ring_items(t.ring).len() == 0 && key_in(finished, t.key))
}

/// The rings that stay.
pub open spec fn kept_rings(rings: Seq<TrackRing>, finished: Seq<u16>) -> Seq<TrackRing> {
    rings.filter(|t: TrackRing| stays(t, finished))
}

/// Playback may start: every ring's track is finished or holds at least
/// `start_samples`.
pub open spec fn start_ok(rings: Seq<TrackRing>, finished: Seq<u16>, start_samples: usize) -> bool {
    forall|i: int| 0 <= i < rings.len() ==> key_in(finished, (#[trigger] rings[i]).key)
        || ring_items(rings[i].ring).len() >= start_samples
}

/// What one pass of the receiver hands out.
pub enum Reception {
    /// No ring and no effect tail is left.
    Exit,
    /// Nothing to take yet.
    Wait,
    /// Samples taken from each ring, by key, and from the effect tail.
    Mixed { tracks: Vec<(u16, Vec<u32>)>, tail: Vec<u32> },
}

/// `r` hands out, for each ring of `kept` (each holding at least
/// `per_track`), its first `per_track` samples, and the first `effects`
/// samples of `tail0`; `rings1` and `tail1` are what is left.
pub open spec fn mixed_from(
    r: Reception,
    kept: Seq<TrackRing>,
    tail0: Bounded<Vec<u32>>,
    rings1: Seq<TrackRing>,
    tail1: Bounded<Vec<u32>>,
    per_track: usize,
    effects: usize,
) -> bool {
    match r {
        Reception::Mixed { tracks, tail } => {
            &&& tracks@.len() == kept.len()
            &&& rings1.len() == kept.len()
            &&& forall|i: int| 0 <= i < kept.len() ==> {
                &&& ring_items(kept[i].ring).len() >= per_track
                &&& (#[trigger] tracks@[i]).0 == kept[i].key
                &&& tracks@[i].1@ == ring_items(kept[i].ring).take(per_track as int)
            }
            &&& forall|i: int| 0 <= i < kept.len() ==> {
                &&& (#[trigger] rings1[i]).key == kept[i].key
                &&& ring_capacity(rings1[i].ring) == ring_capacity(kept[i].ring)
                &&& ring_items(rings1[i].ring) == ring_items(kept[i].ring).skip(per_track as int)
            }
            &&& ring_items(tail0).len() >= effects
            &&& tail@ == ring_items(tail0).take(effects as int)
            &&& ring_capacity(tail1) == ring_capacity(tail0)
            &&& ring_items(tail1) == ring_items(tail0).skip(effects as int)
        },
        _ => false,
    }
}

/// `m` is a length and `len` reaches it.
pub open spec fn holds_at_least(m: Option<usize>, len: nat) -> bool {
    match m {
        Some(mm) => mm <= len,
        None => false,
    }
}

proof fn lemma_min_remaining_le(levels: Seq<(u16, usize)>, finished: Seq<u16>, n: int, i: int)
    requires
        0 <= i < n <= levels.len(),
        !(levels[i].1 == 0 && key_in(finished, levels[i].0)),
    ensures
        min_remaining_len(levels, finished, n) matches Some(m) && m <= levels[i].1,
    decreases n,
{
    if i < n - 1 {
        lemma_min_remaining_le(levels, finished, n - 1, i);
    }
}

proof fn lemma_pushed_items_ok(items: Seq<u32>, capacity: nat, x: u32)
    requires
        capacity > 0,
        items.len() <= capacity,
    ensures
        pushed_items(items, capacity, x).len() <= capacity,
{
}

impl TrackBuffers {
    /// Keys are distinct and every ring (the tail too) is usable.
    pub open spec fn wf(&self) -> bool {
        &&& unique_keys(ring_keys(self.rings@))
        &&& forall|i: int| 0 <= i < self.rings@.len() ==> ring_ok(#[trigger] self.rings@[i].ring)
        &&& ring_ok(self.tail)
    }

    /// One empty ring of `buffer_size` samples per distinct track key (keys
    /// are taken as 16-bit track keys), no finished track, and an empty
    /// effect tail of `tail_size` samples.
    pub fn new(keys: &Vec<u32>, buffer_size: usize, tail_size: usize) -> (r: Self)
        requires
            buffer_size > 0,
            tail_size > 0,
        ensures
            r.wf(),
            ring_keys(r.rings@) == key_list(keys@),
            forall|i: int| 0 <= i < r.rings@.len() ==> ring_items((#[trigger] r.rings@[i]).ring).len() == 0
                && ring_capacity(r.rings@[i].ring) == buffer_size,
            r.finished@.len() == 0,
            ring_items(r.tail).len() == 0,
            ring_capacity(r.tail) == tail_size,
    {
        let mut rings: Vec<TrackRing> = Vec::new();
        let mut i: usize = 0;
        while i < keys.len()
            invariant
                i <= keys@.len(),
                buffer_size > 0,
                ring_keys(rings@) == key_list(keys@.take(i as int)),
                unique_keys(ring_keys(rings@)),
                forall|q: int| 0 <= q < rings@.len() ==> ring_items((#[trigger] rings@[q]).ring).len() == 0
                    && ring_capacity(rings@[q].ring) == buffer_size,
            decreases keys.len() - i,
        {
            let k = keys[i] as u16;
            let mut found = false;
            let mut j: usize = 0;
            while j < rings.len()
                invariant
                    j <= rings@.len(),
                    found == (exists|w: int| 0 <= w < j && rings@[w].key == k),
                decreases rings.len() - j,
            {
                if rings[j].key == k {
                    found = true;
                }
                j = j + 1;
            }
            proof {
                let t1 = keys@.take(i + 1);
                assert(t1.drop_last() == keys@.take(i as int));
                assert(t1.last() == keys@[i as int]);
                let rk = ring_keys(rings@);
                if found {
                    let w = choose|w: int| 0 <= w < rings@.len() && rings@[w].key == k;
                    assert(rk[w] == k);
                    assert(rk.contains(k));
                } else {
                    assert forall|w: int| 0 <= w < rk.len() implies rk[w] != k by {
                        assert(rk[w] == rings@[w].key);
                    }
                    assert(!rk.contains(k));
                }
            }
            if !found {
                let ring = ring_with_capacity(buffer_size);
                let ghost before = rings@;
                rings.push(TrackRing { key: k, ring });
                proof {
                    assert(ring_keys(rings@) =~= ring_keys(before).push(k));
                    let rk = ring_keys(rings@);
                    assert forall|a: int, b: int| 0 <= a < b < rk.len() implies #[trigger] rk[a] != #[trigger] rk[b] by {
                        if b == rk.len() - 1 {
                            assert(rk[a] == ring_keys(before)[a]);
                            assert(ring_keys(before).contains(rk[a]));
                        } else {
                            assert(rk[a] == ring_keys(before)[a]);
                            assert(rk[b] == ring_keys(before)[b]);
                        }
                    }
                }
            }
            i = i + 1;
        }
        proof {
            assert(keys@.take(keys@.len() as int) == keys@);
        }
        TrackBuffers { rings, finished: Vec::new(), tail: ring_with_capacity(tail_size) }
    }

    /// `(key, buffered samples)` for each ring, in ring order.
    pub fn levels(&self) -> (r: Vec<(u16, usize)>)
        ensures
            r@ == ring_levels(self.rings@),
    {
        let mut out: Vec<(u16, usize)> = Vec::new();
        let mut i: usize = 0;
        while i < self.rings.len()
            invariant
                i <= self.rings@.len(),
                out@ == ring_levels(self.rings@.take(i as int)),
            decreases self.rings.len() - i,
        {
            out.push((self.rings[i].key, ring_len(&self.rings[i].ring)));
            proof {
                assert(ring_levels(self.rings@.take(i + 1)) =~= ring_levels(self.rings@.take(i as int)).push(
                    (self.rings@[i as int].key, ring_items(self.rings@[i as int].ring).len() as usize)));
            }
            i = i + 1;
        }
        proof {
            assert(self.rings@.take(self.rings@.len() as int) == self.rings@);
        }
        out
    }

    /// Push `samples` into `ring`, each in turn (a full ring drops its
    /// oldest sample for each one pushed).
    fn push_all(ring: &mut Bounded<Vec<u32>>, samples: &Vec<u32>)
        requires
            ring_ok(*old(ring)),
        ensures
            ring_ok(*final(ring)),
            ring_capacity(*final(ring)) == ring_capacity(*old(ring)),
            ring_items(*final(ring)) == pushed_all(ring_items(*old(ring)), ring_capacity(*old(ring)), samples@),
    {
        let ghost items0 = ring_items(*ring);
        let ghost cap = ring_capacity(*ring);
        let mut k: usize = 0;
        while k < samples.len()
            invariant
                k <= samples@.len(),
                ring_ok(*ring),
                ring_capacity(*ring) == cap,
                ring_items(*ring) == pushed_all(items0, cap, samples@.take(k as int)),
            decreases samples.len() - k,
        {
            let ghost before = ring_items(*ring);
            let _ = ring_push(ring, samples[k]);
            proof {
                lemma_pushed_items_ok(before, cap, samples@[k as int]);
                let t1 = samples@.take(k + 1);
                assert(t1.drop_last() == samples@.take(k as int));
                assert(t1.last() == samples@[k as int]);
            }
            k = k + 1;
        }
        proof {
            assert(samples@.take(samples@.len() as int) == samples@);
        }
    }

    /// Buffer decoded `samples` for track `key`; false (and nothing
    /// changes) when the track has no ring.
    pub fn push_samples(&mut self, key: u16, samples: &Vec<u32>) -> (found: bool)
        requires
            old(self).wf(),
        ensures
            final(self).wf(),
            found == ring_keys(old(self).rings@).contains(key),
            ring_keys(final(self).rings@) == ring_keys(old(self).rings@),
            forall|i: int| 0 <= i < old(self).rings@.len() ==> {
                let a = old(self).rings@[i];
                let b = #[trigger] final(self).rings@[i];
                &&& ring_capacity(b.ring) == ring_capacity(a.ring)
                &&& ring_items(b.ring) == (if a.key == key {
                    pushed_all(ring_items(a.ring), ring_capacity(a.ring), samples@)
                } else {
                    ring_items(a.ring)
                })
            },
            final(self).finished == old(self).finished,
            final(self).tail == old(self).tail,
    {
        let mut j: usize = 0;
        while j < self.rings.len()
            invariant
                j <= self.rings@.len(),
                forall|w: int| 0 <= w < j ==> self.rings@[w].key != key,
            ensures
                j <= self.rings@.len(),
                forall|w: int| 0 <= w < j ==> self.rings@[w].key != key,
                j < self.rings@.len() ==> self.rings@[j as int].key == key,
            decreases self.rings.len() - j,
        {
            if self.rings[j].key == key {
                break;
            }
            j = j + 1;
        }
        let ghost rk = ring_keys(self.rings@);
        if j == self.rings.len() {
            proof {
                assert forall|w: int| 0 <= w < rk.len() implies rk[w] != key by {
                    assert(rk[w] == self.rings@[w].key);
                }
            }
            return false;
        }
        let ghost orig = self.rings@;
        proof {
            assert(ring_ok(orig[j as int].ring));
            assert(rk[j as int] == key);
        }
        Self::push_all(&mut self.rings[j].ring, samples);
        proof {
            assert(ring_keys(self.rings@) =~= rk) by {
                assert forall|w: int| 0 <= w < rk.len() implies ring_keys(self.rings@)[w] == rk[w] by {
                    if w != j { assert(self.rings@[w] == orig[w]); }
                }
            }
            assert forall|i: int| 0 <= i < self.rings@.len() implies ring_ok(#[trigger] self.rings@[i].ring) by {
                if i != j { assert(self.rings@[i] == orig[i]); }
            }
            assert forall|i: int| 0 <= i < orig.len() && i != j implies orig[i].key != key by {
                assert(rk[i] == orig[i].key);
            }
        }
        true
    }

    /// Record that track `key` finished decoding.
    pub fn mark_finished(&mut self, key: u16)
        ensures
            final(self).finished@ == old(self).finished@.push(key),
            final(self).rings == old(self).rings,
            final(self).tail == old(self).tail,
    {
        self.finished.push(key);
    }

    /// Append effect output to the tail (a full tail drops its oldest
    /// sample for each one pushed).
    pub fn push_tail(&mut self, samples: &Vec<u32>)
        requires
            old(self).wf(),
        ensures
            final(self).wf(),
            ring_capacity(final(self).tail) == ring_capacity(old(self).tail),
            ring_items(final(self).tail) == pushed_all(ring_items(old(self).tail), ring_capacity(old(self).tail), samples@),
            final(self).rings == old(self).rings,
            final(self).finished == old(self).finished,
    {
        Self::push_all(&mut self.tail, samples);
    }

    /// Pop the first `n` samples of `ring`.
    fn take_front(ring: &mut Bounded<Vec<u32>>, n: usize) -> (r: Vec<u32>)
        requires
            ring_ok(*old(ring)),
            n <= ring_items(*old(ring)).len(),
        ensures
            ring_ok(*final(ring)),
            ring_capacity(*final(ring)) == ring_capacity(*old(ring)),
            r@ == ring_items(*old(ring)).take(n as int),
            ring_items(*final(ring)) == ring_items(*old(ring)).skip(n as int),
    {
        let ghost items0 = ring_items(*ring);
        let mut out: Vec<u32> = Vec::new();
        let mut k: usize = 0;
        while k < n
            invariant
                k <= n,
                n <= items0.len(),
                ring_ok(*ring),
                ring_capacity(*ring) == ring_capacity(*old(ring)),
                out@ == items0.take(k as int),
                ring_items(*ring) == items0.skip(k as int),
            decreases n - k,
        {
            let v = ring_pop(ring);
            proof {
                assert(items0.skip(k as int)[0] == items0[k as int]);
                assert(items0.skip(k as int).drop_first() =~= items0.skip(k + 1));
            }
            match v {
                Some(x) => {
                    out.push(x);
                },
                None => {},
            }
            proof {
                assert(out@ =~= items0.take(k + 1));
            }
            k = k + 1;
        }
        out
    }

    /// Drop the rings that do not stay (empty, with their track finished).
    fn drop_finished_empty(&mut self, Ghost(m): Ghost<Option<usize>>)
        requires
            old(self).wf(),
            m == min_remaining_len(ring_levels(old(self).rings@), old(self).finished@, old(self).rings@.len() as int),
        ensures
            final(self).wf(),
            final(self).rings@ == kept_rings(old(self).rings@, old(self).finished@),
            final(self).finished == old(self).finished,
            final(self).tail == old(self).tail,
            forall|i: int| 0 <= i < final(self).rings@.len() ==> stays(#[trigger] final(self).rings@[i], old(self).finished@)
                && holds_at_least(m, ring_items(final(self).rings@[i].ring).len()),
    {
        let ghost orig = self.rings@;
        let ghost levels = ring_levels(orig);
        let ghost fin = self.finished@;
        let n0 = self.rings.len();
        let mut rest: Vec<TrackRing> = Vec::new();
        std::mem::swap(&mut rest, &mut self.rings);
        let mut k: usize = 0;
        while rest.len() > 0
            invariant
                k <= orig.len(),
                orig.len() == n0,
                rest@ == orig.skip(k as int),
                self.rings@ == kept_rings(orig.take(k as int), fin),
                self.finished == old(self).finished,
                self.finished@ == fin,
                self.tail == old(self).tail,
                fin == old(self).finished@,
                orig == old(self).rings@,
                levels == ring_levels(orig),
                m == min_remaining_len(levels, fin, orig.len() as int),
                old(self).wf(),
                forall|i: int| 0 <= i < self.rings@.len() ==> stays(#[trigger] self.rings@[i], fin)
                    && holds_at_least(m, ring_items(self.rings@[i].ring).len()),
                forall|i: int| 0 <= i < self.rings@.len() ==> ring_ok(#[trigger] self.rings@[i].ring),
                unique_keys(ring_keys(self.rings@)),
                forall|i: int, w: int| 0 <= i < self.rings@.len() && k <= w < orig.len()
                    ==> #[trigger] self.rings@[i].key != #[trigger] orig[w].key,
            decreases rest.len(),
        {
            proof {
                assert(rest@.len() == orig.len() - k);
            }
            let t = rest.remove(0);
            proof {
                assert(orig.skip(k as int)[0] == orig[k as int]);
                assert(orig.skip(k as int).remove(0) =~= orig.skip(k + 1));
                let t1 = orig.take(k + 1);
                assert(t1.drop_last() == orig.take(k as int));
                assert(t1.last() == orig[k as int]);
                reveal_with_fuel(Seq::filter, 1);
                assert(levels[k as int] == (orig[k as int].key, ring_items(orig[k as int].ring).len() as usize));
            }
            let len = ring_len(&t.ring);
            if len == 0 && contains_key(&self.finished, t.key) {
                proof {
                    assert(kept_rings(orig.take(k + 1), fin) == kept_rings(orig.take(k as int), fin));
                }
            } else {
                proof {
                    lemma_min_remaining_le(levels, fin, orig.len() as int, k as int);
                    assert(kept_rings(orig.take(k + 1), fin) == kept_rings(orig.take(k as int), fin).push(t));
                    assert(ring_ok(orig[k as int].ring));
                    assert forall|w: int| k < w < orig.len() implies t.key != #[trigger] orig[w].key by {
                        assert(ring_keys(orig)[k as int] == orig[k as int].key);
                        assert(ring_keys(orig)[w] == orig[w].key);
                    }
                }
                let ghost before = self.rings@;
                self.rings.push(t);
                proof {
                    let rk = ring_keys(self.rings@);
                    assert forall|a: int, b: int| 0 <= a < b < rk.len() implies #[trigger] rk[a] != #[trigger] rk[b] by {
                        assert(rk[a] == self.rings@[a].key);
                        assert(rk[b] == self.rings@[b].key);
                        if b < before.len() {
                            assert(ring_keys(before)[a] == before[a].key);
                            assert(ring_keys(before)[b] == before[b].key);
                        } else {
                            assert(self.rings@[a] == before[a]);
                            assert(before[a].key != orig[k as int].key);
                        }
                    }
                    assert forall|i: int, w: int| 0 <= i < self.rings@.len() && k + 1 <= w < orig.len()
                        implies #[trigger] self.rings@[i].key != #[trigger] orig[w].key by {
                        if i < before.len() {
                            assert(self.rings@[i] == before[i]);
                        }
                    }
                }
            }
            k = k + 1;
        }
        proof {
            assert(orig.skip(k as int).len() == 0);
            assert(k == orig.len());
            assert(orig.take(k as int) == orig);
        }
    }

    /// Samples held by the effect tail.
    pub fn tail_len(&self) -> (r: usize)
        ensures
            r == ring_items(self.tail).len(),
    {
        ring_len(&self.tail)
    }

    /// Every ring's track is finished or holds at least `start_samples`.
    fn ready_to_start(&self, start_samples: usize) -> (r: bool)
        ensures
            r == start_ok(self.rings@, self.finished@, start_samples),
    {
        let mut i: usize = 0;
        while i < self.rings.len()
            invariant
                i <= self.rings@.len(),
                forall|q: int| 0 <= q < i ==> key_in(self.finished@, (#[trigger] self.rings@[q]).key)
                    || ring_items(self.rings@[q].ring).len() >= start_samples,
            decreases self.rings.len() - i,
        {
            if !contains_key(&self.finished, self.rings[i].key) && ring_len(&self.rings[i].ring) < start_samples {
                return false;
            }
            i = i + 1;
        }
        true
    }

    /// One pass of the receiver.
    ///
    /// Rings that are empty and whose track is finished are dropped; when
    /// no ring and no effect tail is left the receiver exits. Until
    /// playback has started, it waits for every ring to be finished or
    /// hold `start_samples`. Then, when no remaining ring is empty, it
    /// takes the length of the shortest ring from every ring, and as many
    /// samples of the effect tail, up to that length; otherwise it waits.
    pub fn receive(&mut self, started: &mut bool, start_samples: usize) -> (r: Reception)
        requires
            old(self).wf(),
            ring_items(old(self).tail).len() > 0 ==> min_remaining_len(
                ring_levels(old(self).rings@),
                old(self).finished@,
                old(self).rings@.len() as int,
            ) is Some,
        ensures
            final(self).wf(),
            final(self).finished == old(self).finished,
            ({
                let kept = kept_rings(old(self).rings@, old(self).finished@);
                let step = receiver_step(
                    ring_levels(old(self).rings@),
                    old(self).finished@,
                    ring_items(old(self).tail).len() as usize,
                );
                if step == ReceiverStep::Exit {
                    &&& r is Exit
                    &&& final(self).rings@ == kept
                    &&& final(self).tail == old(self).tail
                    &&& *final(started) == *old(started)
                } else if !*old(started) && !start_ok(kept, old(self).finished@, start_samples) {
                    &&& r is Wait
                    &&& final(self).rings@ == kept
                    &&& final(self).tail == old(self).tail
                    &&& !*final(started)
                } else {
                    &&& *final(started)
                    &&& match step {
                        ReceiverStep::Mix { per_track, effects } => mixed_from(
                            r,
                            kept,
                            old(self).tail,
                            final(self).rings@,
                            final(self).tail,
                            per_track,
                            effects,
                        ),
                        _ => r is Wait && final(self).rings@ == kept && final(self).tail == old(self).tail,
                    }
                }
            }),
    {
        let levels = self.levels();
        let tail_len = ring_len(&self.tail);
        let (_, step) = receiver_view(&levels, &self.finished, tail_len);
        let ghost m = min_remaining_len(levels@, self.finished@, levels@.len() as int);
        proof {
            assert(levels@.len() == self.rings@.len());
        }
        self.drop_finished_empty(Ghost(m));
        let ghost kept = self.rings@;
        if step == ReceiverStep::Exit {
            return Reception::Exit;
        }
        if !*started {
            if self.ready_to_start(start_samples) {
                *started = true;
            } else {
                return Reception::Wait;
            }
        }
        match step {
            ReceiverStep::Mix { per_track, effects } => {
                let ghost tail0 = self.tail;
                let n = self.rings.len();
                let mut tracks: Vec<(u16, Vec<u32>)> = Vec::new();
                let mut i: usize = 0;
                while i < n
                    invariant
                        i <= n,
                        n == kept.len(),
                        self.rings@.len() == n,
                        m == Some(per_track),
                        tracks@.len() == i,
                        self.tail == tail0,
                        self.finished == old(self).finished,
                        forall|q: int| 0 <= q < kept.len() ==> ring_ok(#[trigger] kept[q].ring)
                            && holds_at_least(m, ring_items(kept[q].ring).len()),
                        forall|q: int| 0 <= q < i ==> {
                            &&& (#[trigger] tracks@[q]).0 == kept[q].key
                            &&& tracks@[q].1@ == ring_items(kept[q].ring).take(per_track as int)
                        },
                        forall|q: int| 0 <= q < i ==> {
                            &&& (#[trigger] self.rings@[q]).key == kept[q].key
                            &&& ring_ok(self.rings@[q].ring)
                            &&& ring_capacity(self.rings@[q].ring) == ring_capacity(kept[q].ring)
                            &&& ring_items(self.rings@[q].ring) == ring_items(kept[q].ring).skip(per_track as int)
                        },
                        forall|q: int| i <= q < n ==> #[trigger] self.rings@[q] == kept[q],
                    decreases n - i,
                {
                    let ghost before = self.rings@;
                    proof {
                        assert(self.rings@[i as int] == kept[i as int]);
                    }
                    let key = self.rings[i].key;
                    let taken = Self::take_front(&mut self.rings[i].ring, per_track);
                    tracks.push((key, taken));
                    proof {
                        assert forall|q: int| 0 <= q < i implies (#[trigger] self.rings@[q]) == before[q] by {}
                        assert forall|q: int| i < q < n implies (#[trigger] self.rings@[q]) == before[q] by {}
                    }
                    i = i + 1;
                }
                let tail = Self::take_front(&mut self.tail, effects);
                proof {
                    let rk = ring_keys(self.rings@);
                    assert(unique_keys(ring_keys(kept)));
                    assert forall|a: int, b: int| 0 <= a < b < rk.len() implies #[trigger] rk[a] != #[trigger] rk[b] by {
                        assert(rk[a] == self.rings@[a].key);
                        assert(rk[b] == self.rings@[b].key);
                        assert(ring_keys(kept)[a] == kept[a].key);
                        assert(ring_keys(kept)[b] == kept[b].key);
                    }
                }
                Reception::Mixed { tracks, tail }
            },
            _ => Reception::Wait,
        }
    }
}

} // verus!
