//! Decisions of the mix thread: startup sizing, decode-event handling,
//! the start gate, DSP batching of mixed samples, premix chunk sizing and
//! the effect-tail drain.
//!
//! The thread itself (channels, sleeping, effect processing, output) lives
//! with the caller; each step here takes the values it decides on and
//! returns what to do.

use vstd::prelude::*;

use crate::backpressure::DecodeBackpressureState;
use crate::buffer_mixer::{BackpressureEvent, BufferMixer};
use crate::cover_map::TransitionDirection;
use crate::packet_router::{fade_well_behaved, PacketTiming, RouteDecision};
use crate::premix::PremixBuffer;
use crate::routing::spec_samples_to_ms;
use crate::source_key::{SourceKey, SourceKeyView};

verus! {

/// Upper bound on effect-tail drain passes once the mix has finished.
pub const MAX_EFFECT_DRAIN_PASSES: usize = 1024;

/// Consecutive silent drain passes after which the tail is considered done.
pub const DRAIN_SILENT_PASSES_TO_STOP: usize = 2;

/// Peak level at or below which a drain pass counts as silent: the bit
/// pattern of the `f32` value `1.0e-6`.
pub const DRAIN_SILENCE_EPSILON_BITS: u32 = 0x3586_37BD;

/// Shortest mix chunk, in milliseconds.
pub const MIN_MIX_MS: u32 = 30;

/// `x` rounded up to a multiple of `batch` (unchanged when `batch` is 0).
pub open spec fn round_up_to(x: int, batch: int) -> int {
    if batch <= 0 { x } else { ((x + batch - 1) / batch) * batch }
}

/// Interleaved samples of the shortest mix chunk: `MIN_MIX_MS` of frames
/// (at least one) on every channel, rounded up to a multiple of the
/// convolution batch when there is one.
pub open spec fn spec_min_mix_samples(sample_rate: u32, channels: usize, convolution_batch_samples: usize) -> int {
    let frames = sample_rate * MIN_MIX_MS / 1000;
    let base = (if frames < 1 { 1 } else { frames }) * channels;
    round_up_to(base, convolution_batch_samples as int)
}

/// Interleaved samples of the shortest mix chunk.
pub fn min_mix_samples(sample_rate: u32, channels: usize, convolution_batch_samples: usize) -> (r: usize)
    requires
        spec_min_mix_samples(sample_rate, channels, convolution_batch_samples) <= usize::MAX,
    ensures
        r == spec_min_mix_samples(sample_rate, channels, convolution_batch_samples),
{
    let frames64: u64 = (sample_rate as u64) * (MIN_MIX_MS as u64) / 1000;
    let frames: usize = if frames64 < 1 { 1 } else { frames64 as usize };
    let ghost b = frames * channels;
    proof {
        let c = convolution_batch_samples as int;
        if c > 0 {
            assert(b <= ((b + c - 1) / c) * c) by (nonlinear_arith)
                requires c > 0, b >= 0;
        }
    }
    assert(frames * channels <= usize::MAX);
    let base = frames * channels;
    if convolution_batch_samples == 0 {
        return base;
    }
    let c = convolution_batch_samples;
    let q = base / c;
    let rem = base % c;
    proof {
        let bi = base as int;
        let ci = c as int;
        let qi = q as int;
        let ri = rem as int;
        assert(qi + (if ri > 0 { 1int } else { 0int }) == (bi + ci - 1) / ci) by (nonlinear_arith)
            requires
                ci > 0,
                bi >= 0,
                qi == bi / ci,
                ri == bi % ci,
        {
            assert(bi == qi * ci + ri);
            assert(0 <= ri < ci);
        }
        assert(((bi + ci - 1) / ci) * ci <= usize::MAX);
        assert((bi + ci - 1) / ci <= usize::MAX) by (nonlinear_arith)
            requires ci >= 1, ((bi + ci - 1) / ci) * ci <= usize::MAX, bi >= 0;
    }
    let blocks = q + (if rem > 0 { 1usize } else { 0usize });
    assert(blocks * c <= usize::MAX);
    blocks * c
}

/// Capacity of each instance buffer: ten seconds of audio, or twice the
/// start threshold when that is more.
pub fn track_buffer_size(sample_rate: u32, channels: usize, start_samples: usize) -> (r: usize)
    requires
        sample_rate * 10 * (if channels == 0 { 1 } else { channels as int }) <= usize::MAX,
        start_samples * 2 <= usize::MAX,
    ensures
        r == (if sample_rate * 10 * (if channels == 0 { 1 } else { channels as int }) > start_samples * 2 {
            sample_rate * 10 * (if channels == 0 { 1 } else { channels as int })
        } else {
            start_samples * 2
        }),
{
    let ch = if channels == 0 { 1 } else { channels };
    assert((sample_rate as usize) * 10 <= usize::MAX) by (nonlinear_arith)
        requires sample_rate * 10 * ch <= usize::MAX, ch >= 1;
    let per_channel = (sample_rate as usize) * 10;
    let ten_seconds = per_channel * ch;
    let doubled = start_samples * 2;
    if ten_seconds > doubled { ten_seconds } else { doubled }
}

/// The characters of each path.
pub open spec fn path_views(paths: Seq<String>) -> Seq<Seq<char>> {
    paths.map_values(|p: String| p@)
}

/// The distinct container track ids of `s`, in order of first use.
pub open spec fn distinct_track_ids(s: Seq<SourceKey>) -> Seq<u32>
    decreases s.len(),
{
    if s.len() == 0 {
        Seq::empty()
    } else {
        let prev = distinct_track_ids(s.drop_last());
        match s.last()@ {
            SourceKeyView::TrackId(id) => if prev.contains(id) { prev } else { prev.push(id) },
            SourceKeyView::FilePath(_) => prev,
        }
    }
}

/// The distinct standalone file paths of `s`, in order of first use.
pub open spec fn distinct_file_paths(s: Seq<SourceKey>) -> Seq<Seq<char>>
    decreases s.len(),
{
    if s.len() == 0 {
        Seq::empty()
    } else {
        let prev = distinct_file_paths(s.drop_last());
        match s.last()@ {
            SourceKeyView::FilePath(p) => if prev.contains(p) { prev } else { prev.push(p) },
            SourceKeyView::TrackId(_) => prev,
        }
    }
}

proof fn lemma_push_contains<A>(s: Seq<A>, x: A, y: A)
    ensures
        s.push(x).contains(y) <==> s.contains(y) || y == x,
{
    let t = s.push(x);
    if t.contains(y) {
        let k = choose|k: int| 0 <= k < t.len() && t[k] == y;
        if k < s.len() {
            assert(s[k] == y);
        }
    }
    if s.contains(y) {
        let k = choose|k: int| 0 <= k < s.len() && s[k] == y;
        assert(t[k] == y);
    }
    if y == x {
        assert(t[s.len() as int] == y);
    }
}

/// The first-use lists hold each id and path of `s` exactly once.
proof fn lemma_distinct_sources(s: Seq<SourceKey>)
    ensures
        distinct_track_ids(s).no_duplicates(),
        distinct_file_paths(s).no_duplicates(),
        forall|id: u32| #[trigger] distinct_track_ids(s).contains(id)
            <==> exists|i: int| 0 <= i < s.len() && #[trigger] s[i]@ == SourceKeyView::TrackId(id),
        forall|p: Seq<char>| #[trigger] distinct_file_paths(s).contains(p)
            <==> exists|i: int| 0 <= i < s.len() && #[trigger] s[i]@ == SourceKeyView::FilePath(p),
    decreases s.len(),
{
    if s.len() > 0 {
        let d = s.drop_last();
        lemma_distinct_sources(d);
        let last = s.len() - 1;
        assert(s.last() == s[last]);
        assert forall|i: int| 0 <= i < d.len() implies #[trigger] d[i] == s[i] by {}
        let ids = distinct_track_ids(s);
        let paths = distinct_file_paths(s);
        let prev_ids = distinct_track_ids(d);
        let prev_paths = distinct_file_paths(d);
        assert forall|id: u32| #[trigger] ids.contains(id)
            <==> exists|i: int| 0 <= i < s.len() && #[trigger] s[i]@ == SourceKeyView::TrackId(id) by {
            match s.last()@ {
                SourceKeyView::TrackId(x) => {
                    if !prev_ids.contains(x) {
                        lemma_push_contains(prev_ids, x, id);
                    }
                },
                SourceKeyView::FilePath(_) => {},
            }
            assert(ids.contains(id) <==> prev_ids.contains(id) || s.last()@ == SourceKeyView::TrackId(id));
            if exists|i: int| 0 <= i < s.len() && #[trigger] s[i]@ == SourceKeyView::TrackId(id) {
                let i = choose|i: int| 0 <= i < s.len() && #[trigger] s[i]@ == SourceKeyView::TrackId(id);
                if i < last {
                    assert(d[i]@ == SourceKeyView::TrackId(id));
                }
            }
            if prev_ids.contains(id) {
                let i = choose|i: int| 0 <= i < d.len() && #[trigger] d[i]@ == SourceKeyView::TrackId(id);
                assert(s[i]@ == SourceKeyView::TrackId(id));
            }
            if s.last()@ == SourceKeyView::TrackId(id) {
                assert(s[last]@ == SourceKeyView::TrackId(id));
            }
        }
        assert forall|p: Seq<char>| #[trigger] paths.contains(p)
            <==> exists|i: int| 0 <= i < s.len() && #[trigger] s[i]@ == SourceKeyView::FilePath(p) by {
            match s.last()@ {
                SourceKeyView::FilePath(x) => {
                    if !prev_paths.contains(x) {
                        lemma_push_contains(prev_paths, x, p);
                    }
                },
                SourceKeyView::TrackId(_) => {},
            }
            assert(paths.contains(p) <==> prev_paths.contains(p) || s.last()@ == SourceKeyView::FilePath(p));
            if exists|i: int| 0 <= i < s.len() && #[trigger] s[i]@ == SourceKeyView::FilePath(p) {
                let i = choose|i: int| 0 <= i < s.len() && #[trigger] s[i]@ == SourceKeyView::FilePath(p);
                if i < last {
                    assert(d[i]@ == SourceKeyView::FilePath(p));
                }
            }
            if prev_paths.contains(p) {
                let i = choose|i: int| 0 <= i < d.len() && #[trigger] d[i]@ == SourceKeyView::FilePath(p);
                assert(s[i]@ == SourceKeyView::FilePath(p));
            }
            if s.last()@ == SourceKeyView::FilePath(p) {
                assert(s[last]@ == SourceKeyView::FilePath(p));
            }
        }
        match s.last()@ {
            SourceKeyView::TrackId(id) => {
                let prev = distinct_track_ids(d);
                if !prev.contains(id) {
                    assert forall|a: int, b: int| 0 <= a < b < ids.len() implies ids[a] != ids[b] by {
                        if b == ids.len() - 1 {
                            assert(prev.contains(ids[a]));
                        } else {
                            assert(prev[a] != prev[b]);
                        }
                    }
                }
            },
            SourceKeyView::FilePath(q) => {
                let prev = distinct_file_paths(d);
                if !prev.contains(q) {
                    assert forall|a: int, b: int| 0 <= a < b < paths.len() implies paths[a] != paths[b] by {
                        if b == paths.len() - 1 {
                            assert(prev.contains(paths[a]));
                        } else {
                            assert(prev[a] != prev[b]);
                        }
                    }
                }
            },
        }
    }
}

fn contains_id(ids: &Vec<u32>, id: u32) -> (r: bool)
    ensures
        r == ids@.contains(id),
{
    let mut j: usize = 0;
    while j < ids.len()
        invariant
            j <= ids@.len(),
            forall|w: int| 0 <= w < j ==> ids@[w] != id,
        decreases ids.len() - j,
    {
        if ids[j] == id {
            return true;
        }
        j = j + 1;
    }
    false
}

fn contains_path(paths: &Vec<String>, path: &String) -> (r: bool)
    ensures
        r == path_views(paths@).contains(path@),
{
    let ghost v = path_views(paths@);
    let mut j: usize = 0;
    while j < paths.len()
        invariant
            j <= paths@.len(),
            v == path_views(paths@),
            forall|w: int| 0 <= w < j ==> v[w] != path@,
        decreases paths.len() - j,
    {
        let same = paths[j].eq(path);
        if same {
            assert(v[j as int] == path@);
            return true;
        }
        j = j + 1;
    }
    false
}

/// Container track ids and standalone file paths among `sources`: each
/// distinct id and path once, in order of first use.
pub fn partition_sources(sources: &Vec<SourceKey>) -> (r: (Vec<u32>, Vec<String>))
    ensures
        r.0@ == distinct_track_ids(sources@),
        path_views(r.1@) == distinct_file_paths(sources@),
        r.0@.no_duplicates(),
        path_views(r.1@).no_duplicates(),
        forall|id: u32| #[trigger] r.0@.contains(id)
            <==> exists|i: int| 0 <= i < sources@.len() && #[trigger] sources@[i]@ == SourceKeyView::TrackId(id),
        forall|p: Seq<char>| #[trigger] path_views(r.1@).contains(p)
            <==> exists|i: int| 0 <= i < sources@.len() && #[trigger] sources@[i]@ == SourceKeyView::FilePath(p),
{
    let mut track_ids: Vec<u32> = Vec::new();
    let mut file_paths: Vec<String> = Vec::new();
    let mut i: usize = 0;
    while i < sources.len()
        invariant
            i <= sources@.len(),
            track_ids@ == distinct_track_ids(sources@.take(i as int)),
            path_views(file_paths@) == distinct_file_paths(sources@.take(i as int)),
        decreases sources.len() - i,
    {
        let ghost t0 = sources@.take(i as int);
        let ghost t1 = sources@.take(i + 1);
        proof {
            assert(t1.drop_last() == t0);
            assert(t1.last() == sources@[i as int]);
        }
        match &sources[i] {
            SourceKey::TrackId(id) => {
                if !contains_id(&track_ids, *id) {
                    track_ids.push(*id);
                }
            },
            SourceKey::FilePath(path) => {
                if !contains_path(&file_paths, path) {
                    let ghost before = file_paths@;
                    file_paths.push(path.clone());
                    proof {
                        assert(path_views(file_paths@) =~= path_views(before).push(path@));
                    }
                }
            },
        }
        i = i + 1;
    }
    proof {
        assert(sources@.take(sources@.len() as int) == sources@);
        lemma_distinct_sources(sources@);
    }
    (track_ids, file_paths)
}

/// Turn on startup fairness when standalone files are decoded and a start
/// threshold is set. Returns whether waiting workers must be woken.
pub fn maybe_enable_startup_priority(
    state: &mut DecodeBackpressureState,
    file_paths: &Vec<String>,
    startup_gate_samples: usize,
) -> (notify: bool)
    ensures
        notify == (file_paths@.len() > 0 && startup_gate_samples > 0),
        *final(state) == (if notify {
            DecodeBackpressureState { startup_priority_target_samples: Some(startup_gate_samples), ..*old(state) }
        } else {
            *old(state)
        }),
{
    if file_paths.len() > 0 && startup_gate_samples > 0 {
        state.enable_startup_priority(startup_gate_samples)
    } else {
        false
    }
}

/// Number of container decode workers (one when any container track is a
/// source) and of standalone-file decode workers.
pub fn decode_worker_counts(sources: &Vec<SourceKey>) -> (r: (usize, usize))
    ensures
        r.0 == (if exists|i: int| 0 <= i < sources@.len() && (#[trigger] sources@[i]) is TrackId { 1usize } else { 0usize }),
        r.1 == sources@.filter(|k: SourceKey| k is FilePath).len(),
{
    let mut any_track = false;
    let mut files: usize = 0;
    let mut i: usize = 0;
    while i < sources.len()
        invariant
            i <= sources@.len(),
            any_track == (exists|j: int| 0 <= j < i && (#[trigger] sources@[j]) is TrackId),
            files == sources@.take(i as int).filter(|k: SourceKey| k is FilePath).len(),
            files <= i,
        decreases sources.len() - i,
    {
        proof {
            let t1 = sources@.take(i + 1);
            assert(t1.drop_last() == sources@.take(i as int));
            assert(t1.last() == sources@[i as int]);
            reveal_with_fuel(Seq::filter, 1);
        }
        match &sources[i] {
            SourceKey::TrackId(_) => {
                any_track = true;
            },
            SourceKey::FilePath(_) => {
                files = files + 1;
            },
        }
        i = i + 1;
    }
    proof {
        assert(sources@.take(sources@.len() as int) == sources@);
    }
    (if any_track { 1 } else { 0 }, files)
}

/// Every track key of the container has finished buffering. A key too
/// wide for the engine's 16-bit track keys counts as unfinished.
pub fn finished_buffering(keys: &Vec<u32>, finished_tracks: &Vec<u16>) -> (r: bool)
    ensures
        r == (forall|i: int| 0 <= i < keys@.len() ==> #[trigger] keys@[i] <= u16::MAX
            && finished_tracks@.contains(keys@[i] as u16)),
{
    let mut i: usize = 0;
    while i < keys.len()
        invariant
            i <= keys@.len(),
            forall|q: int| 0 <= q < i ==> #[trigger] keys@[q] <= u16::MAX && finished_tracks@.contains(keys@[q] as u16),
        decreases keys.len() - i,
    {
        let key = keys[i];
        if key > 65535 {
            return false;
        }
        let track_key = key as u16;
        let mut found = false;
        let mut j: usize = 0;
        while j < finished_tracks.len()
            invariant
                j <= finished_tracks@.len(),
                found == (exists|w: int| 0 <= w < j && finished_tracks@[w] == track_key),
            decreases finished_tracks.len() - j,
        {
            if finished_tracks[j] == track_key {
                found = true;
            }
            j = j + 1;
        }
        if !found {
            return false;
        }
        i = i + 1;
    }
    true
}

/// One event of a decode worker, with the packet's position already
/// worked out per mixer instance.
#[derive(Debug)]
pub enum DecodeWorkerEvent<T> {
    /// A decoded packet of interleaved samples.
    Packet { source_key: SourceKey, samples: Vec<T>, timing: Vec<PacketTiming> },
    /// The source reached end of stream.
    SourceFinished { source_key: SourceKey },
    /// The source reported a problem; a terminal one ends the source.
    SourceError { source_key: SourceKey, recoverable: bool, message: String },
    /// A shared stream (a container demuxer) is exhausted: every source ends.
    StreamExhausted,
}

/// Apply one decode-worker event to the mixer: route a packet, finish a
/// source that ended or failed for good, or finish everything when the
/// shared stream is exhausted. Recoverable errors change nothing.
pub fn apply_decode_event<T: Copy, F: Fn(Vec<T>, TransitionDirection, usize) -> Vec<T>>(
    mixer: &mut BufferMixer<T>,
    event: DecodeWorkerEvent<T>,
    fade: &F,
    events: &mut Vec<BackpressureEvent>,
) -> (r: Option<RouteDecision>)
    requires
        old(mixer).wf(),
        fade_well_behaved(*fade),
        old(mixer).crossfade_ms * old(mixer).sample_rate <= usize::MAX,
        event matches DecodeWorkerEvent::Packet { source_key, samples, timing } ==> {
            &&& timing@.len() == old(mixer).instances@.len()
            &&& samples@.len() >= old(mixer).channels && old(mixer).needs_cover(source_key@, timing@)
                ==> old(mixer).spec_cover_transition() % 2 == 0
        },
    ensures
        final(mixer).wf(),
        final(mixer).instances@.len() == old(mixer).instances@.len(),
        final(mixer).track_instances == old(mixer).track_instances,
        final(mixer).slot_to_logical == old(mixer).slot_to_logical,
        final(mixer).consumed_samples == old(mixer).consumed_samples,
        final(mixer).sample_rate == old(mixer).sample_rate,
        final(mixer).channels == old(mixer).channels,
        final(mixer).mix_chunk_samples == old(mixer).mix_chunk_samples,
        final(mixer).crossfade_ms == old(mixer).crossfade_ms,
        match event {
            DecodeWorkerEvent::Packet { source_key, samples, timing } => {
                &&& r matches Some(d) && (samples@.len() < old(mixer).channels ==> {
                    &&& final(mixer).instances@ == old(mixer).instances@
                    &&& final(events)@ == old(events)@
                    &&& d.sample_targets_written@.len() == 0 && d.zero_fill_targets_written@.len() == 0 && d.ignored
                }) && (samples@.len() >= old(mixer).channels ==> {
                    &&& forall|i: int| 0 <= i < old(mixer).instances@.len() ==> old(mixer).routed_instance(
                        old(mixer).instances@[i], #[trigger] final(mixer).instances@[i], samples@, source_key@, timing@[i], *fade)
                    &&& final(events)@ == old(events)@ + old(mixer).route_events(samples@, source_key@, timing@, *fade,
                        old(mixer).instances@.len() as int)
                    &&& d.sample_targets_written@ == old(mixer).real_targets(samples@, source_key@, timing@, *fade,
                        old(mixer).instances@.len() as int)
                    &&& d.zero_fill_targets_written@ == old(mixer).zero_targets(samples@, source_key@, timing@, *fade,
                        old(mixer).instances@.len() as int)
                    &&& d.ignored == (d.sample_targets_written@.len() == 0 && d.zero_fill_targets_written@.len() == 0)
                })
            },
            DecodeWorkerEvent::SourceError { recoverable: true, .. } => {
                &&& r is None
                &&& *final(mixer) == *old(mixer)
                &&& final(events)@ == old(events)@
            },
            _ => {
                let source = match event {
                    DecodeWorkerEvent::SourceFinished { source_key } => Some(source_key@),
                    DecodeWorkerEvent::SourceError { source_key, .. } => Some(source_key@),
                    _ => None,
                };
                &&& r is None
                &&& forall|i: int| 0 <= i < old(mixer).instances@.len() ==> #[trigger] final(mixer).instances@[i]
                    == BufferMixer::<T>::finished_by(old(mixer).instances@[i], source, spec_samples_to_ms(
                    old(mixer).consumed_samples, old(mixer).sample_rate, old(mixer).channels) as u64)
                &&& final(events)@ == old(events)@ + BufferMixer::<T>::finish_events(old(mixer).instances@, source,
                    old(mixer).instances@.len() as int)
            },
        },
{
    match event {
        DecodeWorkerEvent::Packet { source_key, samples, timing } => {
            Some(mixer.route_packet(samples.as_slice(), source_key, &timing, fade, events))
        },
        DecodeWorkerEvent::SourceFinished { source_key } => {
            mixer.signal_finish(&source_key, events);
            None
        },
        DecodeWorkerEvent::SourceError { source_key, recoverable, message: _ } => {
            if !recoverable {
                mixer.signal_finish(&source_key, events);
            }
            None
        },
        DecodeWorkerEvent::StreamExhausted => {
            mixer.signal_finish_all(events);
            None
        },
    }
}

/// The mix starts once every logical track can deliver the larger of the
/// start threshold and the shortest mix chunk.
pub fn start_gate_open<T: Copy>(mixer: &BufferMixer<T>, start_samples: usize, min_mix_samples: usize) -> (r: bool)
    requires
        mixer.wf(),
    ensures
        r == mixer.spec_mix_ready(if start_samples > min_mix_samples { start_samples } else { min_mix_samples }),
{
    let gate = if start_samples > min_mix_samples { start_samples } else { min_mix_samples };
    mixer.mix_ready_with_min_samples(gate)
}

/// A full DSP batch waiting in `pending`, taken before any new mixing.
pub fn ready_batch<T: Copy>(pending: &mut PremixBuffer<T>, batch: usize) -> (r: Option<Vec<T>>)
    requires
        old(pending).wf(),
    ensures
        final(pending).wf(),
        final(pending).backing_len() == old(pending).backing_len(),
        batch > 0 && old(pending)@.len() >= batch ==> (r matches Some(v) && v@ == old(pending)@.take(batch as int)
            && final(pending)@ == old(pending)@.skip(batch as int)),
        !(batch > 0 && old(pending)@.len() >= batch) ==> r is None && final(pending)@ == old(pending)@,
{
    if batch > 0 && pending.len() >= batch {
        Some(pending.pop_chunk(batch))
    } else {
        None
    }
}

/// The next chunk for DSP after a take from the mixer. Without batching
/// (`batch` 0) a taken chunk goes out as it is. With batching, taken samples
/// are queued and a batch goes out once one is full; when the mix is
/// finished, what is left is padded with `silence` to a batch and sent.
pub fn next_batch<T: Copy>(
    pending: &mut PremixBuffer<T>,
    batch: usize,
    taken: Option<Vec<T>>,
    mix_finished: bool,
    silence: T,
) -> (r: Option<Vec<T>>)
    requires
        old(pending).wf(),
        old(pending).backing_len() + batch <= usize::MAX,
        taken matches Some(v) ==> old(pending).backing_len() + v@.len() + batch <= usize::MAX,
    ensures
        final(pending).wf(),
        ({
            let queued = match taken {
                Some(v) => if batch > 0 { old(pending)@ + v@ } else { old(pending)@ },
                None => old(pending)@,
            };
            let padded = queued + Seq::new(
                (if batch > queued.len() { batch - queued.len() } else { 0 }) as nat, |k: int| silence);
            if taken is Some && batch == 0 {
                r == taken && final(pending)@ == old(pending)@
            } else if taken is Some && queued.len() >= batch {
                (r matches Some(v) && v@ == queued.take(batch as int) && final(pending)@ == queued.skip(batch as int))
            } else if mix_finished && queued.len() > 0 {
                (r matches Some(v) && v@ == padded.take(batch as int) && final(pending)@ == padded.skip(batch as int))
            } else {
                r is None && final(pending)@ == queued
            }
        }),
{
    let ghost start = pending@;
    match taken {
        Some(samples) => {
            if batch > 0 {
                pending.push_interleaved(samples.as_slice());
                if pending.len() >= batch {
                    return Some(pending.pop_chunk(batch));
                }
            } else {
                return Some(samples);
            }
        },
        None => {},
    }
    if mix_finished && !pending.is_empty() {
        let remaining = pending.len();
        let missing = if batch > remaining { batch - remaining } else { 0 };
        let mut zeros: Vec<T> = Vec::new();
        let mut k: usize = 0;
        while k < missing
            invariant
                k <= missing,
                zeros@ == Seq::new(k as nat, |q: int| silence),
            decreases missing - k,
        {
            zeros.push(silence);
            assert(zeros@ =~= Seq::new((k + 1) as nat, |q: int| silence));
            k = k + 1;
        }
        assert(pending.backing_len() + zeros@.len() <= usize::MAX);
        pending.push_interleaved(zeros.as_slice());
        return Some(pending.pop_chunk(batch));
    }
    None
}

/// Samples until the next schedule event at the mixer's rate (0 when
/// there is none ahead).
pub open spec fn samples_until_event(next_event_ms: Option<u64>, current_source_ms: u64, sample_rate: u32, channel_count: usize) -> int {
    match next_event_ms {
        Some(e) => if sample_rate > 0 && e > current_source_ms {
            let product = (e - current_source_ms) * sample_rate;
            let saturated = if product > u64::MAX { u64::MAX as int } else { product };
            (saturated / 1000) * channel_count
        } else {
            0
        },
        None => 0,
    }
}

/// Size of the next premix chunk: the shortest mix chunk while tracks play
/// (when every active buffer holds that much), what the finished buffers
/// still hold once all tracks are finished, and otherwise nothing; never
/// past the next schedule event, the room left in the premix queue or the
/// mix buffer.
pub open spec fn spec_premix_chunk(
    all_tracks_finished: bool,
    active_min_len: usize,
    finished_min_len: usize,
    min_mix_samples: usize,
    until_event: int,
    premix_room: int,
    mix_buffer_len: usize,
) -> int {
    let base = if !all_tracks_finished && active_min_len >= min_mix_samples {
        min_mix_samples as int
    } else if all_tracks_finished && finished_min_len > 0 {
        finished_min_len as int
    } else {
        0
    };
    let to_event = if until_event > 0 && until_event < base { until_event } else { base };
    let to_room = if premix_room < to_event { premix_room } else { to_event };
    if mix_buffer_len < to_room { mix_buffer_len as int } else { to_room }
}

/// Size of the next premix chunk, in interleaved samples.
pub fn premix_chunk_samples(
    all_tracks_finished: bool,
    active_min_len: usize,
    finished_min_len: usize,
    min_mix_samples: usize,
    next_event_ms: Option<u64>,
    current_source_ms: u64,
    sample_rate: u32,
    channel_count: usize,
    premix_max_samples: usize,
    premix_len: usize,
    mix_buffer_len: usize,
) -> (r: usize)
    requires
        samples_until_event(next_event_ms, current_source_ms, sample_rate, channel_count) <= usize::MAX,
    ensures
        r == spec_premix_chunk(
            all_tracks_finished,
            active_min_len,
            finished_min_len,
            min_mix_samples,
            samples_until_event(next_event_ms, current_source_ms, sample_rate, channel_count),
            if premix_max_samples > premix_len { premix_max_samples - premix_len } else { 0 },
            mix_buffer_len,
        ),
{
    let mut chunk = if !all_tracks_finished && active_min_len >= min_mix_samples {
        min_mix_samples
    } else if all_tracks_finished && finished_min_len > 0 {
        finished_min_len
    } else {
        0
    };
    let mut until: usize = 0;
    match next_event_ms {
        Some(next) => {
            if sample_rate > 0 && next > current_source_ms {
                let remaining_ms = next - current_source_ms;
                let product = match remaining_ms.checked_mul(sample_rate as u64) {
                    Some(p) => p,
                    None => u64::MAX,
                };
                let frames = product / 1000;
                assert(frames == (if remaining_ms * sample_rate > u64::MAX { u64::MAX as int } else {
                    remaining_ms * sample_rate }) / 1000);
                if channel_count > 0 {
                    assert(frames * channel_count <= usize::MAX);
                    assert(frames <= usize::MAX) by (nonlinear_arith)
                        requires frames * channel_count <= usize::MAX, channel_count >= 1, frames >= 0;
                    until = (frames as usize) * channel_count;
                } else {
                    assert(frames * channel_count == 0) by (nonlinear_arith)
                        requires channel_count == 0;
                }
            }
        },
        None => {},
    }
    assert(until == samples_until_event(next_event_ms, current_source_ms, sample_rate, channel_count));
    if until > 0 && until < chunk {
        chunk = until;
    }
    let room = if premix_max_samples > premix_len { premix_max_samples - premix_len } else { 0 };
    if room < chunk {
        chunk = room;
    }
    if mix_buffer_len < chunk {
        chunk = mix_buffer_len;
    }
    chunk
}

/// Frames a fading track advances per premix chunk: the chunk's frames,
/// at least one.
pub fn fade_chunk_frames(chunk_samples: usize, channel_count: usize) -> (r: u32)
    requires
        channel_count > 0,
    ensures
        r == (if chunk_samples / channel_count < 1 { 1 } else { chunk_samples / channel_count }) as u32,
{
    let frames = chunk_samples / channel_count;
    let frames = if frames < 1 { 1 } else { frames };
    frames as u32
}

/// Occurrences of `key` in `keys`.
pub open spec fn count_key(keys: Seq<u16>, key: u16) -> nat
    decreases keys.len(),
{
    if keys.len() == 0 {
        0
    } else {
        count_key(keys.drop_last(), key) + (if keys.last() == key { 1nat } else { 0nat })
    }
}

/// A fading track `(key, frames remaining, total frames)` after `count`
/// chunks of `chunk_frames`; tracks with no total length do not advance.
pub open spec fn faded(entry: (u16, u32, u32), count: nat, chunk_frames: u32) -> (u16, u32, u32) {
    if entry.2 == 0 {
        entry
    } else {
        let step = count * chunk_frames;
        (entry.0, (if entry.1 > step { entry.1 - step } else { 0 }) as u32, entry.2)
    }
}

/// No track key occurs twice.
pub open spec fn fade_keys_unique(fading: Seq<(u16, u32, u32)>) -> bool {
    forall|i: int, j: int| 0 <= i < fading.len() && 0 <= j < fading.len() && i != j ==> #[trigger] fading[i].0 != #[trigger] fading[j].0
}

/// The fading tracks after a premix chunk in which the tracks of
/// `snapshot` were mixed: each advances by the chunk's frames once per
/// occurrence, and tracks whose fade has run out are dropped. Nothing
/// changes when no fading track was mixed.
pub open spec fn spec_advance_fades(fading: Seq<(u16, u32, u32)>, snapshot: Seq<u16>, chunk_frames: u32) -> Seq<(u16, u32, u32)> {
    if snapshot.len() == 0 {
        fading
    } else {
        fading.map_values(|e: (u16, u32, u32)| faded(e, count_key(snapshot, e.0), chunk_frames)).filter(
            |e: (u16, u32, u32)| e.1 > 0)
    }
}

/// Advance the fades of the fading tracks mixed into a premix chunk.
pub fn advance_fades(fading: &mut Vec<(u16, u32, u32)>, snapshot: &Vec<u16>, chunk_frames: u32)
    requires
        fade_keys_unique(old(fading)@),
    ensures
        final(fading)@ == spec_advance_fades(old(fading)@, snapshot@, chunk_frames),
        fade_keys_unique(final(fading)@),
        snapshot@.len() > 0 ==> forall|k: int| 0 <= k < final(fading)@.len() ==> (#[trigger] final(fading)@[k]).1 > 0,
{
    if snapshot.len() == 0 {
        return;
    }
    let ghost orig = fading@;
    proof {
        assert(snapshot@.take(0) =~= Seq::<u16>::empty());
        assert forall|i: int| 0 <= i < orig.len() implies #[trigger] fading@[i] == faded(orig[i], count_key(snapshot@.take(0), orig[i].0), chunk_frames) by {
            assert(count_key(snapshot@.take(0), orig[i].0) == 0);
            assert(0 * chunk_frames == 0) by (nonlinear_arith);
        }
    }
    let mut j: usize = 0;
    while j < snapshot.len()
        invariant
            j <= snapshot@.len(),
            fading@.len() == orig.len(),
            fade_keys_unique(orig),
            forall|i: int| 0 <= i < orig.len() ==> #[trigger] fading@[i] == faded(orig[i], count_key(snapshot@.take(j as int), orig[i].0), chunk_frames),
        decreases snapshot.len() - j,
    {
        let key = snapshot[j];
        let mut i: usize = 0;
        let mut found = false;
        while i < fading.len() && !found
            invariant
                i <= fading@.len(),
                fading@.len() == orig.len(),
                fade_keys_unique(orig),
                !found ==> forall|q: int| 0 <= q < i ==> #[trigger] orig[q].0 != key,
                found ==> i < fading@.len() && orig[i as int].0 == key,
                forall|q: int| 0 <= q < orig.len() ==> #[trigger] fading@[q] == faded(orig[q], count_key(snapshot@.take(j as int), orig[q].0), chunk_frames),
            decreases fading.len() - i + (if found { 0int } else { 1int }),
        {
            assert(fading@[i as int].0 == orig[i as int].0);
            if fading[i].0 == key {
                found = true;
            } else {
                i = i + 1;
            }
        }
        proof {
            let t0 = snapshot@.take(j as int);
            let t1 = snapshot@.take(j + 1);
            assert(t1.drop_last() == t0);
            assert(t1.last() == key);
        }
        if found {
            let (k, remaining, total) = fading[i];
            if total != 0 {
                let next = if remaining > chunk_frames { remaining - chunk_frames } else { 0 };
                fading.set(i, (k, next, total));
            }
        }
        proof {
            let t1 = snapshot@.take(j + 1);
            let t0 = snapshot@.take(j as int);
            assert forall|q: int| 0 <= q < orig.len() implies #[trigger] fading@[q] == faded(orig[q], count_key(t1, orig[q].0), chunk_frames) by {
                let c0 = count_key(t0, orig[q].0);
                assert(count_key(t1, orig[q].0) == c0 + (if key == orig[q].0 { 1nat } else { 0nat }));
                if found && q == i {
                    assert((c0 + 1) * chunk_frames == c0 * chunk_frames + chunk_frames) by (nonlinear_arith);
                } else if found {
                    assert(orig[q].0 != orig[i as int].0);
                } else {
                    assert(orig[q].0 != key);
                }
            }
        }
        j = j + 1;
    }
    proof {
        assert(snapshot@.take(snapshot@.len() as int) == snapshot@);
        assert(fading@ =~= orig.map_values(|e: (u16, u32, u32)| faded(e, count_key(snapshot@, e.0), chunk_frames)));
    }
    let ghost mapped = fading@;
    proof {
        assert forall|a: int, b: int| 0 <= a < mapped.len() && 0 <= b < mapped.len() && a != b implies
            #[trigger] mapped[a].0 != #[trigger] mapped[b].0 by {
            assert(mapped[a].0 == orig[a].0);
            assert(mapped[b].0 == orig[b].0);
        }
    }
    let mut kept: Vec<(u16, u32, u32)> = Vec::new();
    let mut i: usize = 0;
    while i < fading.len()
        invariant
            i <= fading@.len(),
            fading@ == mapped,
            fade_keys_unique(mapped),
            kept@ == mapped.take(i as int).filter(|e: (u16, u32, u32)| e.1 > 0),
            fade_keys_unique(kept@),
            forall|a: int| 0 <= a < kept@.len() ==> exists|q: int| 0 <= q < i && #[trigger] kept@[a] == mapped[q],
            forall|a: int| 0 <= a < kept@.len() ==> (#[trigger] kept@[a]).1 > 0,
        decreases fading.len() - i,
    {
        proof {
            let t1 = mapped.take(i + 1);
            assert(t1.drop_last() == mapped.take(i as int));
            assert(t1.last() == mapped[i as int]);
            reveal_with_fuel(Seq::filter, 1);
        }
        let e = fading[i];
        if e.1 > 0 {
            let ghost before = kept@;
            kept.push(e);
            proof {
                assert forall|a: int| 0 <= a < kept@.len() implies exists|q: int| 0 <= q < i + 1 && #[trigger] kept@[a] == mapped[q] by {
                    if a < before.len() {
                        assert(kept@[a] == before[a]);
                    } else {
                        assert(kept@[a] == mapped[i as int]);
                    }
                }
                assert forall|a: int, b: int| 0 <= a < kept@.len() && 0 <= b < kept@.len() && a != b implies
                    #[trigger] kept@[a].0 != #[trigger] kept@[b].0 by {
                    if a < before.len() && b < before.len() {
                        assert(kept@[a] == before[a] && kept@[b] == before[b]);
                    } else if a < before.len() {
                        assert(kept@[a] == before[a]);
                        let q = choose|q: int| 0 <= q < i && #[trigger] before[a] == mapped[q];
                        assert(mapped[q].0 != mapped[i as int].0);
                    } else if b < before.len() {
                        assert(kept@[b] == before[b]);
                        let q = choose|q: int| 0 <= q < i && #[trigger] before[b] == mapped[q];
                        assert(mapped[q].0 != mapped[i as int].0);
                    }
                }
            }
        }
        i = i + 1;
    }
    proof {
        assert(mapped.take(mapped.len() as int) == mapped);
    }
    *fading = kept;
}

/// Progress of draining effect tails after the mix has finished.
#[derive(Debug, Clone, Copy, PartialEq, Eq, Structural)]
pub struct EffectDrain {
    /// Drain passes started so far.
    pub passes: usize,
    /// Consecutive passes whose output was silent.
    pub silent_passes: usize,
}

impl EffectDrain {
    /// No pass made yet.
    pub fn new() -> (r: Self)
        ensures
            r == (EffectDrain { passes: 0, silent_passes: 0 }),
    {
        EffectDrain { passes: 0, silent_passes: 0 }
    }

    /// Start a drain pass. False once more than `MAX_EFFECT_DRAIN_PASSES`
    /// passes were started: the drain stops so that effects cannot produce
    /// a tail forever.
    pub fn begin_pass(&mut self) -> (go_on: bool)
        ensures
            final(self).passes == passes_after(old(self).passes),
            final(self).silent_passes == old(self).silent_passes,
            go_on == (final(self).passes <= MAX_EFFECT_DRAIN_PASSES),
    {
        self.passes = self.passes.saturating_add(1);
        self.passes <= MAX_EFFECT_DRAIN_PASSES
    }

    /// Account for the output of a drain pass: `tail_len` samples, silent
    /// or not. True when the output is to be sent and draining goes on;
    /// false when there was no output or after
    /// `DRAIN_SILENT_PASSES_TO_STOP` consecutive silent passes.
    pub fn finish_pass(&mut self, tail_len: usize, silent: bool) -> (send: bool)
        ensures
            tail_len == 0 ==> *final(self) == *old(self) && !send,
            tail_len > 0 ==> final(self).passes == old(self).passes
                && final(self).silent_passes == (if !silent {
                    0
                } else if old(self).silent_passes == usize::MAX {
                    usize::MAX as int
                } else {
                    old(self).silent_passes + 1
                })
                && send == (final(self).silent_passes < DRAIN_SILENT_PASSES_TO_STOP),
    {
        if tail_len == 0 {
            return false;
        }
        if silent {
            self.silent_passes = self.silent_passes.saturating_add(1);
        } else {
            self.silent_passes = 0;
        }
        self.silent_passes < DRAIN_SILENT_PASSES_TO_STOP
    }
}

/// Drain passes counted after starting one more (the count saturates).
pub open spec fn passes_after(passes: usize) -> int {
    if passes == usize::MAX { usize::MAX as int } else { passes + 1 }
}

/// Draining is bounded: the count of started passes never goes down, a
/// pass goes on only while fewer than `MAX_EFFECT_DRAIN_PASSES` had been
/// started before it, and once a pass is refused every later one is too.
/// (`finish_pass` leaves the count alone.)
pub proof fn lemma_drain_passes_bounded(passes: usize)
    ensures
        passes_after(passes) >= passes,
        passes_after(passes) <= MAX_EFFECT_DRAIN_PASSES ==> passes < MAX_EFFECT_DRAIN_PASSES,
        passes >= MAX_EFFECT_DRAIN_PASSES ==> passes_after(passes) > MAX_EFFECT_DRAIN_PASSES,
{
}

/// Consecutive chunks `[start, end)` of at most `step` samples covering
/// `start..len`.
pub open spec fn chunk_bounds(len: int, step: int, start: int) -> Seq<(usize, usize)>
    decreases len - start,
{
    if step <= 0 || start >= len {
        Seq::empty()
    } else {
        let end = if start + step < len { start + step } else { len };
        seq![(start as usize, end as usize)] + chunk_bounds(len, step, end)
    }
}

/// Largest output chunk: the requested slice (or the whole buffer), and
/// never less than one frame.
pub open spec fn output_step(sample_count: usize, channels: usize, slice: Option<usize>) -> int {
    let s = match slice { Some(n) => n, None => sample_count };
    if s < channels { channels as int } else { s as int }
}

/// How produced samples are cut into output appends: nothing for an empty
/// buffer, otherwise consecutive chunks of [`output_step`] samples (the
/// last one shorter).
pub fn output_chunks(sample_count: usize, channels: usize, output_slice_samples: Option<usize>) -> (r: Vec<(usize, usize)>)
    requires
        sample_count > 0 ==> output_step(sample_count, channels, output_slice_samples) > 0,
    ensures
        r@ == chunk_bounds(sample_count as int, output_step(sample_count, channels, output_slice_samples), 0),
{
    let mut out: Vec<(usize, usize)> = Vec::new();
    if sample_count == 0 {
        return out;
    }
    let requested = match output_slice_samples { Some(n) => n, None => sample_count };
    let step = if requested < channels { channels } else { requested };
    let ghost total = chunk_bounds(sample_count as int, step as int, 0);
    let mut start: usize = 0;
    while start < sample_count
        invariant
            step > 0,
            start <= sample_count,
            total == chunk_bounds(sample_count as int, step as int, 0),
            total == out@ + chunk_bounds(sample_count as int, step as int, start as int),
        decreases sample_count - start,
    {
        let end = if step < sample_count - start { start + step } else { sample_count };
        proof {
            let rest = chunk_bounds(sample_count as int, step as int, start as int);
            assert(rest == seq![(start, end)] + chunk_bounds(sample_count as int, step as int, end as int));
            assert(out@.push((start, end)) + chunk_bounds(sample_count as int, step as int, end as int)
                =~= out@ + rest);
        }
        out.push((start, end));
        start = end;
    }
    proof {
        assert(chunk_bounds(sample_count as int, step as int, start as int) =~= Seq::<(usize, usize)>::empty());
        assert(out@ + Seq::<(usize, usize)>::empty() =~= out@);
    }
    out
}

} // verus!
