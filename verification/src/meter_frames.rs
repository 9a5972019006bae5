//! Frames of the output meter.
//!
//! Pushed audio is measured in frames (consecutive runs of interleaved
//! samples); the frames wait in a queue and are shown one after the other
//! as playback advances: each stays current for as many samples as it
//! spans. What a frame's levels are is the caller's business.

use std::collections::VecDeque;
use vstd::prelude::*;

verus! {

/// One measured frame: its levels and how many interleaved samples it spans.
#[derive(Debug)]
pub struct MeterFrame<T> {
    pub levels: T,
    pub len_samples: usize,
}

/// Frames waiting to be shown, the levels shown now, and how many samples
/// of the current frame are still to be played.
#[derive(Debug)]
pub struct FrameQueue<T> {
    pub queue: VecDeque<MeterFrame<T>>,
    pub current: T,
    pub current_frame_remaining: usize,
}

/// Queue, remaining samples of the current frame, and current levels after
/// playback advances by `k` samples: when the current frame is used up the
/// next one becomes current; advancing stops early when no frame is left.
pub open spec fn advanced<T>(frames: Seq<MeterFrame<T>>, remaining: nat, current: T, k: nat) -> (Seq<MeterFrame<T>>, nat, T)
    decreases k, frames.len(),
{
    if k == 0 {
        (frames, remaining, current)
    } else if remaining == 0 {
        if frames.len() == 0 {
            (frames, 0, current)
        } else {
            advanced(frames.drop_first(), frames[0].len_samples as nat, frames[0].levels, k)
        }
    } else {
        let take: nat = if k < remaining { k } else { remaining };
        advanced(frames, (remaining - take) as nat, current, (k - take) as nat)
    }
}

/// Advancing in two steps is advancing by their sum: how playback time is
/// split between calls does not change which frame is shown or how much of
/// it is left.
pub proof fn lemma_advance_composes<T>(frames: Seq<MeterFrame<T>>, remaining: nat, current: T, a: nat, b: nat)
    ensures
        ({
            let (f1, r1, c1) = advanced(frames, remaining, current, a);
            advanced(f1, r1, c1, b)
        }) == advanced(frames, remaining, current, a + b),
    decreases a, frames.len(),
{
    if a == 0 {
    } else if remaining == 0 {
        if frames.len() == 0 {
            assert(advanced(frames, 0, current, b) == (frames, 0nat, current));
        } else {
            lemma_advance_composes(frames.drop_first(), frames[0].len_samples as nat, frames[0].levels, a, b);
        }
    } else if a < remaining {
        let r1 = (remaining - a) as nat;
        assert(advanced(frames, remaining, current, a) == advanced(frames, r1, current, 0));
        if b == 0 {
        } else if b < r1 {
            assert(advanced(frames, r1, current, b) == advanced(frames, (r1 - b) as nat, current, 0));
        } else {
            assert(advanced(frames, r1, current, b) == advanced(frames, 0, current, (b - r1) as nat));
        }
    } else {
        lemma_advance_composes(frames, 0, current, (a - remaining) as nat, b);
    }
}

impl<T> FrameQueue<T> {
    /// No frame queued; `initial` levels shown.
    pub fn new(initial: T) -> (r: Self)
        ensures
            r.queue@.len() == 0,
            r.current == initial,
            r.current_frame_remaining == 0,
    {
        FrameQueue { queue: VecDeque::new(), current: initial, current_frame_remaining: 0 }
    }

    /// Queue a measured frame behind the others.
    pub fn push(&mut self, frame: MeterFrame<T>)
        ensures
            final(self).queue@ == old(self).queue@.push(frame),
            final(self).current == old(self).current,
            final(self).current_frame_remaining == old(self).current_frame_remaining,
    {
        self.queue.push_back(frame);
    }

    /// Drop every queued frame and show `levels`.
    pub fn reset(&mut self, levels: T)
        ensures
            final(self).queue@.len() == 0,
            final(self).current == levels,
            final(self).current_frame_remaining == 0,
    {
        self.queue.clear();
        self.current = levels;
        self.current_frame_remaining = 0;
    }

    /// Advance playback by `samples` interleaved samples.
    pub fn advance(&mut self, samples: usize)
        ensures
            (final(self).queue@, final(self).current_frame_remaining as nat, final(self).current) == advanced(
                old(self).queue@,
                old(self).current_frame_remaining as nat,
                old(self).current,
                samples as nat,
            ),
    {
        let mut left = samples;
        while left > 0
            invariant
                advanced(self.queue@, self.current_frame_remaining as nat, self.current, left as nat) == advanced(
                    old(self).queue@,
                    old(self).current_frame_remaining as nat,
                    old(self).current,
                    samples as nat,
                ),
            ensures
                (self.queue@, self.current_frame_remaining as nat, self.current) == advanced(
                    old(self).queue@,
                    old(self).current_frame_remaining as nat,
                    old(self).current,
                    samples as nat,
                ),
            decreases left, self.queue@.len(),
        {
            if self.current_frame_remaining == 0 {
                match self.queue.pop_front() {
                    Some(frame) => {
                        self.current = frame.levels;
                        self.current_frame_remaining = frame.len_samples;
                    },
                    None => {
                        break;
                    },
                }
            } else {
                let take = if left < self.current_frame_remaining { left } else { self.current_frame_remaining };
                self.current_frame_remaining = self.current_frame_remaining - take;
                left = left - take;
            }
        }
    }
}

} // verus!
