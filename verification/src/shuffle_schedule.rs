//! Track bookkeeping of the shuffle-schedule mix loop.
//!
//! Each slot of the schedule plays one source under a 16-bit track key.
//! When a scheduled change gives a slot another source, the old track
//! starts fading out and a new track (with a fresh key) is spawned for the
//! new source. Each loop iteration then drops the tracks that are done and
//! decides whether a chunk can be mixed.

use vstd::prelude::*;

use crate::mix_runtime::fade_keys_unique;
use crate::plan::ShuffleScheduleEntry;
use crate::source_key::{ShuffleSource, SourceKeyView};

verus! {

/// A track to start decoding: `source` in `slot_index` under `track_key`,
/// from the schedule position `at_ms`.
#[derive(Debug)]
pub struct TrackSpawn {
    pub slot_index: usize,
    pub track_key: u16,
    pub source: ShuffleSource,
    pub at_ms: u64,
}

/// Which source each slot plays, under which track key, and the tracks
/// fading out as `(key, frames remaining, total frames)`.
#[derive(Debug)]
pub struct ShuffleState {
    pub active_sources: Vec<ShuffleSource>,
    pub active_track_keys: Vec<u16>,
    pub next_track_key: u16,
    pub next_event_index: usize,
    pub fading_tracks: Vec<(u16, u32, u32)>,
}

/// The abstract state: source identities, keys, next key and fades.
pub struct ShuffleView {
    pub sources: Seq<SourceKeyView>,
    pub keys: Seq<u16>,
    pub next_key: u16,
    pub fading: Seq<(u16, u32, u32)>,
}

/// The identities of a list of shuffle sources.
pub open spec fn source_views(s: Seq<ShuffleSource>) -> Seq<SourceKeyView> {
    s.map_values(|x: ShuffleSource| x@)
}

/// `a + 1`, saturating at `u16::MAX`.
pub open spec fn next_key_after(a: u16) -> u16 {
    if a == u16::MAX { a } else { (a + 1) as u16 }
}

/// Index of the fade of track `key` (`-1` when it does not fade).
pub open spec fn fade_pos(f: Seq<(u16, u32, u32)>, key: u16) -> int
    decreases f.len(),
{
    if f.len() == 0 {
        -1
    } else if f.last().0 == key {
        f.len() - 1
    } else {
        fade_pos(f.drop_last(), key)
    }
}

/// Start (or restart) a full-length fade of track `key`.
pub open spec fn fade_insert(f: Seq<(u16, u32, u32)>, key: u16, frames: u32) -> Seq<(u16, u32, u32)> {
    let p = fade_pos(f, key);
    if p >= 0 { f.update(p, (key, frames, frames)) } else { f.push((key, frames, frames)) }
}

/// Slot `k` of the state switches to `source` (a different source).
pub open spec fn switches(v: ShuffleView, event: Seq<SourceKeyView>, k: int) -> bool {
    0 <= k < event.len() && k < v.sources.len() && event[k] != v.sources[k]
}

/// The state after switching slot `k` if the event changes it.
pub open spec fn slot_step(v: ShuffleView, event: Seq<SourceKeyView>, frames: u32, k: int) -> ShuffleView {
    if switches(v, event, k) {
        ShuffleView {
            sources: v.sources.update(k, event[k]),
            keys: v.keys.update(k, v.next_key),
            next_key: next_key_after(v.next_key),
            fading: fade_insert(v.fading, v.keys[k], frames),
        }
    } else {
        v
    }
}

/// The state after the event's slots `0..n` are handled in order.
pub open spec fn slots_applied(v: ShuffleView, event: Seq<SourceKeyView>, frames: u32, n: int) -> ShuffleView
    decreases n,
{
    if n <= 0 {
        v
    } else {
        slot_step(slots_applied(v, event, frames, n - 1), event, frames, n - 1)
    }
}

/// The tracks spawned for the event's slots `0..n`, as
/// `(slot, key, source, at_ms)`.
pub open spec fn slot_spawns(v: ShuffleView, event: Seq<SourceKeyView>, frames: u32, at_ms: u64, n: int)
    -> Seq<(usize, u16, SourceKeyView, u64)>
    decreases n,
{
    if n <= 0 {
        Seq::empty()
    } else {
        let prev = slot_spawns(v, event, frames, at_ms, n - 1);
        let cur = slots_applied(v, event, frames, n - 1);
        if switches(cur, event, n - 1) {
            prev.push(((n - 1) as usize, cur.next_key, event[n - 1], at_ms))
        } else {
            prev
        }
    }
}

/// The state after the events `from..to` are applied in order.
pub open spec fn events_applied(v: ShuffleView, events: Seq<ShuffleScheduleEntry>, frames: u32, from: int, to: int) -> ShuffleView
    decreases to - from,
{
    if to <= from {
        v
    } else {
        let prev = events_applied(v, events, frames, from, to - 1);
        let ev = source_views(events[to - 1].sources@);
        slots_applied(prev, ev, frames, ev.len() as int)
    }
}

/// The tracks spawned by the events `from..to`, in order.
pub open spec fn events_spawns(v: ShuffleView, events: Seq<ShuffleScheduleEntry>, frames: u32, from: int, to: int)
    -> Seq<(usize, u16, SourceKeyView, u64)>
    decreases to - from,
{
    if to <= from {
        Seq::empty()
    } else {
        let prev = events_applied(v, events, frames, from, to - 1);
        let ev = source_views(events[to - 1].sources@);
        events_spawns(v, events, frames, from, to - 1) + slot_spawns(prev, ev, frames, events[to - 1].at_ms, ev.len() as int)
    }
}

/// What a spawn is, abstractly.
pub open spec fn spawn_view(t: TrackSpawn) -> (usize, u16, SourceKeyView, u64) {
    (t.slot_index, t.track_key, t.source@, t.at_ms)
}

impl ShuffleState {
    /// The abstract state.
    pub open spec fn view_of(&self) -> ShuffleView {
        ShuffleView {
            sources: source_views(self.active_sources@),
            keys: self.active_track_keys@,
            next_key: self.next_track_key,
            fading: self.fading_tracks@,
        }
    }

    /// One key per slot; each fading track fades once.
    pub open spec fn wf(&self) -> bool {
        &&& self.active_sources@.len() == self.active_track_keys@.len()
        &&& fade_keys_unique(self.fading_tracks@)
    }

    /// Slots start with keys `0, 1, ...` in order and nothing fades.
    pub fn new(current_sources: Vec<ShuffleSource>) -> (r: Self)
        ensures
            r.wf(),
            r.active_sources@ == current_sources@,
            r.active_track_keys@.len() == current_sources@.len(),
            forall|i: int| 0 <= i < current_sources@.len() ==> #[trigger] r.active_track_keys@[i] == i as u16,
            r.next_track_key == current_sources@.len() as u16,
            r.next_event_index == 0,
            r.fading_tracks@.len() == 0,
    {
        let n = current_sources.len();
        let mut keys: Vec<u16> = Vec::new();
        let mut i: usize = 0;
        while i < n
            invariant
                i <= n,
                keys@.len() == i,
                forall|q: int| 0 <= q < i ==> #[trigger] keys@[q] == q as u16,
            decreases n - i,
        {
            keys.push(i as u16);
            i = i + 1;
        }
        let r = ShuffleState {
            active_sources: current_sources,
            active_track_keys: keys,
            next_track_key: n as u16,
            next_event_index: 0,
            fading_tracks: Vec::new(),
        };
        assert(fade_keys_unique(r.fading_tracks@));
        r
    }

    /// Start a full-length fade of track `key`.
    fn start_fade(&mut self, key: u16, frames: u32)
        requires
            fade_keys_unique(old(self).fading_tracks@),
        ensures
            final(self).fading_tracks@ == fade_insert(old(self).fading_tracks@, key, frames),
            fade_keys_unique(final(self).fading_tracks@),
            final(self).active_sources == old(self).active_sources,
            final(self).active_track_keys == old(self).active_track_keys,
            final(self).next_track_key == old(self).next_track_key,
            final(self).next_event_index == old(self).next_event_index,
    {
        let ghost f = self.fading_tracks@;
        let mut i: usize = self.fading_tracks.len();
        assert(f.take(i as int) == f);
        while i > 0
            invariant
                i <= f.len(),
                self.fading_tracks@ == f,
                f == old(self).fading_tracks@,
                fade_keys_unique(f),
                fade_pos(f, key) == fade_pos(f.take(i as int), key),
                self.active_sources == old(self).active_sources,
                self.active_track_keys == old(self).active_track_keys,
                self.next_track_key == old(self).next_track_key,
                self.next_event_index == old(self).next_event_index,
            decreases i,
        {
            proof {
                assert(f.take(i as int).drop_last() == f.take(i - 1));
                assert(f.take(i as int).last() == f[i - 1]);
            }
            if self.fading_tracks[i - 1].0 == key {
                proof {
                    assert(fade_pos(f.take(i as int), key) == i - 1);
                }
                self.fading_tracks.set(i - 1, (key, frames, frames));
                proof {
                    assert forall|a: int, b: int| 0 <= a < self.fading_tracks@.len() && 0 <= b < self.fading_tracks@.len()
                        && a != b implies #[trigger] self.fading_tracks@[a].0 != #[trigger] self.fading_tracks@[b].0 by {
                        if a != i - 1 {
                            assert(f[a].0 == self.fading_tracks@[a].0);
                        }
                        if b != i - 1 {
                            assert(f[b].0 == self.fading_tracks@[b].0);
                        }
                    }
                }
                return;
            }
            i = i - 1;
        }
        assert(f.take(0) =~= Seq::<(u16, u32, u32)>::empty());
        proof {
            assert forall|q: int| 0 <= q < f.len() implies #[trigger] f[q].0 != key by {
                lemma_fade_pos_absent(f, key, q);
            }
        }
        self.fading_tracks.push((key, frames, frames));
        proof {
            let g = self.fading_tracks@;
            assert forall|a: int, b: int| 0 <= a < g.len() && 0 <= b < g.len() && a != b implies
                #[trigger] g[a].0 != #[trigger] g[b].0 by {
                if a < f.len() && b < f.len() {
                    assert(g[a] == f[a] && g[b] == f[b]);
                } else if a < f.len() {
                    assert(g[a] == f[a]);
                } else if b < f.len() {
                    assert(g[b] == f[b]);
                }
            }
        }
    }

    /// Switch the slots that a scheduled change gives another source: the
    /// old track fades out over `crossfade_frames` frames and a new track
    /// with the next key is spawned for the new source.
    pub fn apply_schedule_event(&mut self, event: &ShuffleScheduleEntry, crossfade_frames: u32, spawns: &mut Vec<TrackSpawn>)
        requires
            old(self).wf(),
        ensures
            final(self).wf(),
            final(self).view_of() == slots_applied(old(self).view_of(), source_views(event.sources@), crossfade_frames,
                event.sources@.len() as int),
            final(self).next_event_index == old(self).next_event_index,
            final(spawns)@.map_values(|t: TrackSpawn| spawn_view(t)) == old(spawns)@.map_values(|t: TrackSpawn| spawn_view(t))
                + slot_spawns(old(self).view_of(), source_views(event.sources@), crossfade_frames, event.at_ms,
                event.sources@.len() as int),
    {
        let ghost v0 = self.view_of();
        let ghost ev = source_views(event.sources@);
        let ghost sp0 = spawns@.map_values(|t: TrackSpawn| spawn_view(t));
        let mut k: usize = 0;
        while k < event.sources.len()
            invariant
                k <= event.sources@.len(),
                self.wf(),
                ev == source_views(event.sources@),
                self.view_of() == slots_applied(v0, ev, crossfade_frames, k as int),
                self.next_event_index == old(self).next_event_index,
                sp0 == old(spawns)@.map_values(|t: TrackSpawn| spawn_view(t)),
                spawns@.map_values(|t: TrackSpawn| spawn_view(t)) == sp0 + slot_spawns(v0, ev, crossfade_frames, event.at_ms, k as int),
            decreases event.sources.len() - k,
        {
            let ghost cur = self.view_of();
            proof {
                assert(ev[k as int] == event.sources@[k as int]@);
            }
            if k < self.active_sources.len() && !event.sources[k].same_as(&self.active_sources[k]) {
                proof {
                    assert(cur.sources[k as int] == self.active_sources@[k as int]@);
                    assert(switches(cur, ev, k as int));
                }
                let old_key = self.active_track_keys[k];
                self.start_fade(old_key, crossfade_frames);
                let new_key = self.next_track_key;
                self.next_track_key = self.next_track_key.saturating_add(1);
                let source = event.sources[k].clone();
                let ghost before = spawns@;
                spawns.push(TrackSpawn { slot_index: k, track_key: new_key, source: source.clone(), at_ms: event.at_ms });
                self.active_sources.set(k, source);
                self.active_track_keys.set(k, new_key);
                proof {
                    assert(source_views(self.active_sources@) =~= cur.sources.update(k as int, ev[k as int]));
                    assert(spawns@.map_values(|t: TrackSpawn| spawn_view(t)) =~= before.map_values(|t: TrackSpawn| spawn_view(t))
                        .push((k, new_key, ev[k as int], event.at_ms)));
                }
            } else {
                proof {
                    if k < self.active_sources.len() {
                        assert(cur.sources[k as int] == self.active_sources@[k as int]@);
                    }
                    assert(!switches(cur, ev, k as int));
                }
            }
            k = k + 1;
        }
    }

    /// Apply every scheduled change that is due at `current_ms`, in order.
    pub fn advance_events(
        &mut self,
        events: &Vec<ShuffleScheduleEntry>,
        current_ms: u64,
        crossfade_frames: u32,
        spawns: &mut Vec<TrackSpawn>,
    )
        requires
            old(self).wf(),
        ensures
            final(self).wf(),
            old(self).next_event_index <= final(self).next_event_index,
            final(self).next_event_index <= events@.len() || final(self).next_event_index == old(self).next_event_index,
            forall|i: int| old(self).next_event_index <= i < final(self).next_event_index ==> (#[trigger] events@[i]).at_ms
                <= current_ms,
            final(self).next_event_index < events@.len() ==> events@[final(self).next_event_index as int].at_ms > current_ms,
            final(self).view_of() == events_applied(old(self).view_of(), events@, crossfade_frames,
                old(self).next_event_index as int, final(self).next_event_index as int),
            final(spawns)@.map_values(|t: TrackSpawn| spawn_view(t)) == old(spawns)@.map_values(|t: TrackSpawn| spawn_view(t))
                + events_spawns(old(self).view_of(), events@, crossfade_frames, old(self).next_event_index as int,
                final(self).next_event_index as int),
    {
        let ghost v0 = self.view_of();
        let ghost i0 = self.next_event_index as int;
        let ghost sp0 = spawns@.map_values(|t: TrackSpawn| spawn_view(t));
        while self.next_event_index < events.len() && events[self.next_event_index].at_ms <= current_ms
            invariant
                self.wf(),
                old(self).next_event_index <= self.next_event_index,
                self.next_event_index <= events@.len() || self.next_event_index == old(self).next_event_index,
                forall|i: int| old(self).next_event_index <= i < self.next_event_index ==> (#[trigger] events@[i]).at_ms
                    <= current_ms,
                v0 == old(self).view_of(),
                i0 == old(self).next_event_index,
                sp0 == old(spawns)@.map_values(|t: TrackSpawn| spawn_view(t)),
                self.view_of() == events_applied(v0, events@, crossfade_frames, i0, self.next_event_index as int),
                spawns@.map_values(|t: TrackSpawn| spawn_view(t)) == sp0 + events_spawns(v0, events@, crossfade_frames, i0,
                    self.next_event_index as int),
            decreases events@.len() - self.next_event_index,
        {
            let index = self.next_event_index;
            let ghost before = spawns@.map_values(|t: TrackSpawn| spawn_view(t));
            self.apply_schedule_event(&events[index], crossfade_frames, spawns);
            self.next_event_index = index + 1;
            proof {
                assert(spawns@.map_values(|t: TrackSpawn| spawn_view(t)) =~= sp0 + events_spawns(v0, events@, crossfade_frames, i0,
                    self.next_event_index as int));
            }
        }
    }
}

proof fn lemma_fade_pos_absent(f: Seq<(u16, u32, u32)>, key: u16, q: int)
    requires
        fade_pos(f, key) == -1,
        0 <= q < f.len(),
    ensures
        f[q].0 != key,
    decreases f.len(),
{
    if f.last().0 != key && q < f.len() - 1 {
        assert(f.drop_last()[q] == f[q]);
        lemma_fade_pos_absent(f.drop_last(), key, q);
    }
}

/// Fade length of a schedule switch: 5 ms of frames, rounded, at least one.
pub fn shuffle_crossfade_frames(sample_rate: u32) -> (r: u32)
    ensures
        r == (if (sample_rate + 100) / 200 < 1 { 1 } else { (sample_rate + 100) / 200 }),
{
    let frames: u64 = ((sample_rate as u64) + 100) / 200;
    if frames < 1 { 1 } else { frames as u32 }
}

/// Playback position in milliseconds after `playback_frames` frames.
pub fn current_playback_ms(playback_frames: u64, sample_rate: u32) -> (r: u64)
    ensures
        r == (if sample_rate == 0 {
            0
        } else {
            (if playback_frames * 1000 > u64::MAX { u64::MAX as int } else { playback_frames * 1000 }) / (sample_rate as int)
        }),
{
    if sample_rate == 0 {
        return 0;
    }
    let millis = match playback_frames.checked_mul(1000) {
        Some(m) => m,
        None => u64::MAX,
    };
    millis / (sample_rate as u64)
}

/// Whether one container worker can buffer every track: there is a
/// container, no change is scheduled and every slot plays a container track.
pub fn use_container_buffering(has_container: bool, upcoming_event_count: usize, sources: &Vec<ShuffleSource>) -> (r: bool)
    ensures
        r == (has_container && upcoming_event_count == 0 && forall|i: int| 0 <= i < sources@.len()
            ==> (#[trigger] sources@[i]) is TrackId),
{
    if !has_container || upcoming_event_count != 0 {
        return false;
    }
    let mut i: usize = 0;
    while i < sources.len()
        invariant
            i <= sources@.len(),
            forall|q: int| 0 <= q < i ==> (#[trigger] sources@[q]) is TrackId,
        decreases sources.len() - i,
    {
        match &sources[i] {
            ShuffleSource::TrackId(_) => {},
            ShuffleSource::FilePath(_) => {
                assert(!(sources@[i as int] is TrackId));
                return false;
            },
        }
        i = i + 1;
    }
    true
}

/// What the shuffle mix loop does in one iteration.
#[derive(Debug, Clone, Copy, PartialEq, Eq, Structural)]
pub enum LoopStep {
    /// No active track, no effect tail and no scheduled change left: stop.
    Exit,
    /// Every track is finished and nothing is buffered: drain the effects.
    Drain,
    /// Send a chunk of the effect tail.
    OutputTail,
    /// Mix a chunk of the active tracks.
    MixTracks,
    /// Nothing to do yet: wait for buffers to fill.
    Idle,
}

/// Buffer levels of the shuffle mix loop for one iteration.
#[derive(Debug)]
pub struct LoopView {
    /// Tracks whose buffers are empty, finished and no longer in use.
    pub removable: Vec<u16>,
    /// No active track is waiting on an empty buffer.
    pub all_buffers_full: bool,
    /// Every active track is finished and no change is scheduled.
    pub all_tracks_finished: bool,
    /// Shortest buffer among unfinished active tracks (0 when none).
    pub active_min_len: usize,
    /// Shortest buffer among finished active tracks (0 when none).
    pub finished_min_len: usize,
    /// Number of buffers of active tracks.
    pub active_count: usize,
    /// What to do.
    pub step: LoopStep,
}

/// `k` occurs in `s`.
pub open spec fn key_in(s: Seq<u16>, k: u16) -> bool {
    exists|i: int| 0 <= i < s.len() && s[i] == k
}

/// A buffer can be dropped: empty, its track finished and no longer in use.
pub open spec fn removable_entry(b: (u16, usize), finished: Seq<u16>, active: Seq<u16>, fading: Seq<u16>) -> bool {
    b.1 == 0 && key_in(finished, b.0) && !key_in(active, b.0) && !key_in(fading, b.0)
}

/// Shortest buffer among the first `n` buffers of active tracks whose
/// finished state is `finished_side` (`None` when there is none).
pub open spec fn min_active_len(buffers: Seq<(u16, usize)>, active: Seq<u16>, finished: Seq<u16>, finished_side: bool, n: int)
    -> Option<usize>
    decreases n,
{
    if n <= 0 {
        None
    } else {
        let prev = min_active_len(buffers, active, finished, finished_side, n - 1);
        let b = buffers[n - 1];
        if key_in(active, b.0) && key_in(finished, b.0) == finished_side {
            match prev {
                Some(m) => Some(if b.1 < m { b.1 } else { m }),
                None => Some(b.1),
            }
        } else {
            prev
        }
    }
}

/// The buffer `b` counts towards the `finished_side` minimum.
pub open spec fn on_side(b: (u16, usize), active: Seq<u16>, finished: Seq<u16>, finished_side: bool) -> bool {
    key_in(active, b.0) && key_in(finished, b.0) == finished_side
}

/// `o` is a length no greater than `len`.
pub open spec fn bounded_by(o: Option<usize>, len: usize) -> bool {
    match o {
        Some(m) => m <= len,
        None => false,
    }
}

/// The minimum over a side is at most every buffer on that side, and is
/// the length of one of them; there is none exactly when no buffer is on
/// that side.
proof fn lemma_min_active_len(buffers: Seq<(u16, usize)>, active: Seq<u16>, finished: Seq<u16>, finished_side: bool, n: int)
    requires
        0 <= n <= buffers.len(),
    ensures
        forall|i: int| 0 <= i < n && on_side(#[trigger] buffers[i], active, finished, finished_side)
            ==> bounded_by(min_active_len(buffers, active, finished, finished_side, n), buffers[i].1),
        min_active_len(buffers, active, finished, finished_side, n) matches Some(m) ==> exists|i: int|
            0 <= i < n && on_side(#[trigger] buffers[i], active, finished, finished_side) && buffers[i].1 == m,
        min_active_len(buffers, active, finished, finished_side, n) is None ==> forall|i: int|
            0 <= i < n ==> !on_side(#[trigger] buffers[i], active, finished, finished_side),
    decreases n,
{
    if n > 0 {
        lemma_min_active_len(buffers, active, finished, finished_side, n - 1);
        let prev = min_active_len(buffers, active, finished, finished_side, n - 1);
        if let Some(m) = prev {
            let w = choose|i: int| 0 <= i < n - 1 && on_side(#[trigger] buffers[i], active, finished, finished_side)
                && buffers[i].1 == m;
            assert(on_side(buffers[w], active, finished, finished_side));
        }
        assert(on_side(buffers[n - 1], active, finished, finished_side)
            == (key_in(active, buffers[n - 1].0) && key_in(finished, buffers[n - 1].0) == finished_side));
    }
}

/// Number of the first `n` buffers that belong to active tracks.
pub open spec fn active_buffers(buffers: Seq<(u16, usize)>, active: Seq<u16>, n: int) -> int
    decreases n,
{
    if n <= 0 { 0 } else { active_buffers(buffers, active, n - 1) + (if key_in(active, buffers[n - 1].0) { 1int } else { 0int }) }
}

/// True when `k` is one of `s`.
pub(crate) fn contains_key(s: &Vec<u16>, k: u16) -> (r: bool)
    ensures
        r == key_in(s@, k),
{
    let mut i: usize = 0;
    while i < s.len()
        invariant
            i <= s@.len(),
            forall|q: int| 0 <= q < i ==> s@[q] != k,
        decreases s.len() - i,
    {
        if s[i] == k {
            assert(s@[i as int] == k);
            return true;
        }
        i = i + 1;
    }
    false
}

/// The active tracks are ready to start: each is finished or holds at
/// least `start_samples`.
pub fn start_ready(buffers: &Vec<(u16, usize)>, active: &Vec<u16>, finished: &Vec<u16>, start_samples: usize) -> (r: bool)
    ensures
        r == (forall|i: int| 0 <= i < buffers@.len() && key_in(active@, (#[trigger] buffers@[i]).0)
            ==> key_in(finished@, buffers@[i].0) || buffers@[i].1 >= start_samples),
{
    let mut i: usize = 0;
    while i < buffers.len()
        invariant
            i <= buffers@.len(),
            forall|q: int| 0 <= q < i && key_in(active@, (#[trigger] buffers@[q]).0)
                ==> key_in(finished@, buffers@[q].0) || buffers@[q].1 >= start_samples,
        decreases buffers.len() - i,
    {
        let (key, len) = buffers[i];
        if contains_key(active, key) && !contains_key(finished, key) && len < start_samples {
            return false;
        }
        i = i + 1;
    }
    true
}

/// Levels and next step of the shuffle mix loop. `buffers` lists every
/// track buffer as `(key, buffered samples)`; `fading` the keys of tracks
/// fading out. The start gate is checked by the caller with [`start_ready`].
pub fn loop_view(
    buffers: &Vec<(u16, usize)>,
    finished: &Vec<u16>,
    active: &Vec<u16>,
    fading: &Vec<u16>,
    effects_len: usize,
    events_pending: bool,
    min_mix_samples: usize,
) -> (r: LoopView)
    ensures
        r.removable@ == buffers@.filter(|b: (u16, usize)| removable_entry(b, finished@, active@, fading@)).map_values(
            |b: (u16, usize)| b.0),
        r.all_buffers_full == (forall|i: int| 0 <= i < buffers@.len() && (#[trigger] buffers@[i]).1 == 0
            && !removable_entry(buffers@[i], finished@, active@, fading@) ==> !key_in(active@, buffers@[i].0)),
        r.all_tracks_finished == ((forall|i: int| 0 <= i < active@.len() ==> key_in(finished@, #[trigger] active@[i]))
            && !events_pending),
        r.active_min_len == match min_active_len(buffers@, active@, finished@, false, buffers@.len() as int) {
            Some(m) => m,
            None => 0,
        },
        r.finished_min_len == match min_active_len(buffers@, active@, finished@, true, buffers@.len() as int) {
            Some(m) => m,
            None => 0,
        },
        r.active_count == active_buffers(buffers@, active@, buffers@.len() as int),
        forall|i: int| 0 <= i < buffers@.len() && on_side(#[trigger] buffers@[i], active@, finished@, false)
            ==> r.active_min_len <= buffers@[i].1,
        forall|i: int| 0 <= i < buffers@.len() && on_side(#[trigger] buffers@[i], active@, finished@, true)
            ==> r.finished_min_len <= buffers@[i].1,
        (exists|i: int| 0 <= i < buffers@.len() && on_side(#[trigger] buffers@[i], active@, finished@, false))
            ==> exists|i: int| 0 <= i < buffers@.len() && on_side(#[trigger] buffers@[i], active@, finished@, false)
                && r.active_min_len == buffers@[i].1,
        (exists|i: int| 0 <= i < buffers@.len() && on_side(#[trigger] buffers@[i], active@, finished@, true))
            ==> exists|i: int| 0 <= i < buffers@.len() && on_side(#[trigger] buffers@[i], active@, finished@, true)
                && r.finished_min_len == buffers@[i].1,
        r.step == (if r.active_count == 0 && effects_len == 0 && !events_pending {
            LoopStep::Exit
        } else if r.active_count == 0 && effects_len == 0 && r.all_tracks_finished {
            LoopStep::Drain
        } else if effects_len > 0 {
            LoopStep::OutputTail
        } else if r.active_count > 0 && ((!r.all_tracks_finished && r.active_min_len >= min_mix_samples)
            || (r.all_tracks_finished && r.finished_min_len > 0)) {
            LoopStep::MixTracks
        } else {
            LoopStep::Idle
        }),
{
    let mut removable: Vec<u16> = Vec::new();
    let mut all_full = true;
    let mut active_min: Option<usize> = None;
    let mut finished_min: Option<usize> = None;
    let mut count: usize = 0;
    let mut i: usize = 0;
    while i < buffers.len()
        invariant
            i <= buffers@.len(),
            removable@ == buffers@.take(i as int).filter(|b: (u16, usize)| removable_entry(b, finished@, active@, fading@))
                .map_values(|b: (u16, usize)| b.0),
            all_full == (forall|q: int| 0 <= q < i && (#[trigger] buffers@[q]).1 == 0
                && !removable_entry(buffers@[q], finished@, active@, fading@) ==> !key_in(active@, buffers@[q].0)),
            active_min == min_active_len(buffers@, active@, finished@, false, i as int),
            finished_min == min_active_len(buffers@, active@, finished@, true, i as int),
            count == active_buffers(buffers@, active@, i as int),
            count <= i,
        decreases buffers.len() - i,
    {
        let (key, len) = buffers[i];
        let in_active = contains_key(active, key);
        let in_finished = contains_key(finished, key);
        let in_fading = contains_key(fading, key);
        proof {
            let t1 = buffers@.take(i + 1);
            assert(t1.drop_last() == buffers@.take(i as int));
            assert(t1.last() == buffers@[i as int]);
            reveal_with_fuel(Seq::filter, 1);
        }
        if len == 0 && in_finished && !in_active && !in_fading {
            let ghost before = removable@;
            removable.push(key);
            proof {
                assert(removable@ =~= buffers@.take(i + 1).filter(|b: (u16, usize)| removable_entry(b, finished@, active@, fading@))
                    .map_values(|b: (u16, usize)| b.0));
            }
        } else {
            if len == 0 && in_active {
                all_full = false;
            }
            proof {
                assert(removable@ =~= buffers@.take(i + 1).filter(|b: (u16, usize)| removable_entry(b, finished@, active@, fading@))
                    .map_values(|b: (u16, usize)| b.0));
            }
        }
        if in_active {
            count = count + 1;
            if in_finished {
                finished_min = match finished_min {
                    Some(m) => Some(if len < m { len } else { m }),
                    None => Some(len),
                };
            } else {
                active_min = match active_min {
                    Some(m) => Some(if len < m { len } else { m }),
                    None => Some(len),
                };
            }
        }
        i = i + 1;
    }
    proof {
        assert(buffers@.take(buffers@.len() as int) == buffers@);
    }
    let mut all_finished = !events_pending;
    let mut j: usize = 0;
    while j < active.len()
        invariant
            j <= active@.len(),
            all_finished == ((forall|q: int| 0 <= q < j ==> key_in(finished@, #[trigger] active@[q])) && !events_pending),
        decreases active.len() - j,
    {
        if !contains_key(finished, active[j]) {
            all_finished = false;
        }
        j = j + 1;
    }
    proof {
        lemma_min_active_len(buffers@, active@, finished@, false, buffers@.len() as int);
        lemma_min_active_len(buffers@, active@, finished@, true, buffers@.len() as int);
    }
    let active_min_len = match active_min { Some(m) => m, None => 0 };
    let finished_min_len = match finished_min { Some(m) => m, None => 0 };
    let step = if count == 0 && effects_len == 0 && !events_pending {
        LoopStep::Exit
    } else if count == 0 && effects_len == 0 && all_finished {
        LoopStep::Drain
    } else if effects_len > 0 {
        LoopStep::OutputTail
    } else if count > 0 && ((!all_finished && active_min_len >= min_mix_samples) || (all_finished && finished_min_len > 0)) {
        LoopStep::MixTracks
    } else {
        LoopStep::Idle
    };
    LoopView {
        removable,
        all_buffers_full: all_full,
        all_tracks_finished: all_finished,
        active_min_len,
        finished_min_len,
        active_count: count,
        step,
    }
}

/// Samples of the effect tail sent in one iteration: up to one mix chunk,
/// at least one.
pub fn tail_take(tail_len: usize, min_mix_samples: usize) -> (r: usize)
    ensures
        r == (if (if tail_len < min_mix_samples { tail_len } else { min_mix_samples }) < 1 {
            1
        } else {
            if tail_len < min_mix_samples { tail_len } else { min_mix_samples }
        }),
{
    let t = if tail_len < min_mix_samples { tail_len } else { min_mix_samples };
    if t < 1 { 1 } else { t }
}

/// What the receiver loop of the track-buffer engine does in one iteration.
#[derive(Debug, Clone, Copy, PartialEq, Eq, Structural)]
pub enum ReceiverStep {
    /// No track left and no effect tail: stop.
    Exit,
    /// Take `per_track` samples from every remaining track buffer and
    /// `effects` samples from the effect tail.
    Mix { per_track: usize, effects: usize },
    /// Wait for buffers to fill.
    Idle,
}

/// Shortest of the first `n` buffers that stay (`None` when none stays).
pub open spec fn min_remaining_len(buffers: Seq<(u16, usize)>, finished: Seq<u16>, n: int) -> Option<usize>
    decreases n,
{
    if n <= 0 {
        None
    } else {
        let prev = min_remaining_len(buffers, finished, n - 1);
        let b = buffers[n - 1];
        if b.1 == 0 && key_in(finished, b.0) {
            prev
        } else {
            match prev {
                Some(m) => Some(if b.1 < m { b.1 } else { m }),
                None => Some(b.1),
            }
        }
    }
}

proof fn lemma_min_remaining_len(buffers: Seq<(u16, usize)>, finished: Seq<u16>, n: int)
    requires
        0 <= n <= buffers.len(),
    ensures
        forall|i: int| 0 <= i < n && !((#[trigger] buffers[i]).1 == 0 && key_in(finished, buffers[i].0))
            ==> bounded_by(min_remaining_len(buffers, finished, n), buffers[i].1),
        min_remaining_len(buffers, finished, n) matches Some(m) ==> exists|i: int| 0 <= i < n
            && !((#[trigger] buffers[i]).1 == 0 && key_in(finished, buffers[i].0)) && buffers[i].1 == m,
    decreases n,
{
    if n > 0 {
        lemma_min_remaining_len(buffers, finished, n - 1);
        if let Some(m) = min_remaining_len(buffers, finished, n - 1) {
            let w = choose|i: int| 0 <= i < n - 1
                && !((#[trigger] buffers[i]).1 == 0 && key_in(finished, buffers[i].0)) && buffers[i].1 == m;
            assert(!(buffers[w].1 == 0 && key_in(finished, buffers[w].0)));
        }
    }
}

/// The receiver's next step for buffer levels `buffers`.
pub open spec fn receiver_step(buffers: Seq<(u16, usize)>, finished: Seq<u16>, effects_len: usize) -> ReceiverStep {
    match min_remaining_len(buffers, finished, buffers.len() as int) {
        None => if effects_len == 0 { ReceiverStep::Exit } else { ReceiverStep::Idle },
        Some(smallest) => if smallest > 0 {
            ReceiverStep::Mix { per_track: smallest, effects: if effects_len < smallest { effects_len } else { smallest } }
        } else {
            ReceiverStep::Idle
        },
    }
}

/// Buffers that are empty and whose track is finished are dropped; once
/// none is left and the effect tail is empty the loop stops. A chunk is
/// mixed when no remaining buffer is empty (or only the effect tail is
/// left): the length of the shortest remaining buffer from every track,
/// and as much of the effect tail, up to that length.
pub fn receiver_view(buffers: &Vec<(u16, usize)>, finished: &Vec<u16>, effects_len: usize) -> (r: (Vec<u16>, ReceiverStep))
    requires
        effects_len > 0 ==> min_remaining_len(buffers@, finished@, buffers@.len() as int) is Some,
    ensures
        r.0@ == buffers@.filter(|b: (u16, usize)| b.1 == 0 && key_in(finished@, b.0)).map_values(|b: (u16, usize)| b.0),
        r.1 == receiver_step(buffers@, finished@, effects_len),
        r.1 is Mix ==> forall|i: int| 0 <= i < buffers@.len() && !((#[trigger] buffers@[i]).1 == 0
            && key_in(finished@, buffers@[i].0)) ==> r.1->per_track <= buffers@[i].1,
        r.1 is Mix ==> exists|i: int| 0 <= i < buffers@.len() && !((#[trigger] buffers@[i]).1 == 0
            && key_in(finished@, buffers@[i].0)) && r.1->per_track == buffers@[i].1,
        r.1 is Mix ==> r.1->effects <= effects_len && r.1->effects <= r.1->per_track,
{
    let mut removable: Vec<u16> = Vec::new();
    let mut smallest: Option<usize> = None;
    let mut i: usize = 0;
    while i < buffers.len()
        invariant
            i <= buffers@.len(),
            removable@ == buffers@.take(i as int).filter(|b: (u16, usize)| b.1 == 0 && key_in(finished@, b.0))
                .map_values(|b: (u16, usize)| b.0),
            smallest == min_remaining_len(buffers@, finished@, i as int),
        decreases buffers.len() - i,
    {
        let (key, len) = buffers[i];
        proof {
            let t1 = buffers@.take(i + 1);
            assert(t1.drop_last() == buffers@.take(i as int));
            assert(t1.last() == buffers@[i as int]);
            reveal_with_fuel(Seq::filter, 1);
        }
        if len == 0 && contains_key(finished, key) {
            removable.push(key);
        } else {
            smallest = match smallest {
                Some(m) => Some(if len < m { len } else { m }),
                None => Some(len),
            };
        }
        proof {
            assert(removable@ =~= buffers@.take(i + 1).filter(|b: (u16, usize)| b.1 == 0 && key_in(finished@, b.0))
                .map_values(|b: (u16, usize)| b.0));
        }
        i = i + 1;
    }
    proof {
        assert(buffers@.take(buffers@.len() as int) == buffers@);
    }
    proof {
        lemma_min_remaining_len(buffers@, finished@, buffers@.len() as int);
    }
    let step = match smallest {
        None => if effects_len == 0 { ReceiverStep::Exit } else { ReceiverStep::Idle },
        Some(m) => if m > 0 {
            ReceiverStep::Mix { per_track: m, effects: if effects_len < m { effects_len } else { m } }
        } else {
            ReceiverStep::Idle
        },
    };
    (removable, step)
}

} // verus!
