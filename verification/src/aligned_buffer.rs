//! Per-instance FIFO of real sample spans and virtual silent spans.
//!
//! Explicit sample spans and runs of silence are stored in order, so the
//! mixer keeps exact alignment without materialising long silent buffers
//! during startup and seeks.

use std::collections::VecDeque;
use vstd::prelude::*;
use vstd::slice::slice_to_vec;

verus! {

/// One ordered span of an instance buffer.
#[derive(Debug)]
pub enum BufferSegment<T> {
    /// A virtual run of silent samples.
    Zeros(usize),
    /// Owned real samples with a read cursor.
    Samples { data: Vec<T>, pos: usize },
}

/// FIFO of ordered sample/silence segments for a single instance.
///
/// `T` is the sample type; `silence` is the value a silent span yields.
#[derive(Debug)]
pub struct AlignedSampleBuffer<T> {
    segments: VecDeque<BufferSegment<T>>,
    len_samples: usize,
    silence: T,
}

/// Samples still to be read from one segment.
pub open spec fn segment_view<T>(seg: BufferSegment<T>, silence: T) -> Seq<T> {
    match seg {
        BufferSegment::Zeros(n) => Seq::new(n as nat, |i: int| silence),
        BufferSegment::Samples { data, pos } => data@.subrange(pos as int, data@.len() as int),
    }
}

/// Samples still to be read from a sequence of segments, in order.
pub open spec fn segments_view<T>(segs: Seq<BufferSegment<T>>, silence: T) -> Seq<T>
    decreases segs.len(),
{
    if segs.len() == 0 {
        Seq::empty()
    } else {
        segments_view(segs.drop_last(), silence) + segment_view(segs.last(), silence)
    }
}

/// A segment that still has something to read.
pub open spec fn segment_live<T>(seg: BufferSegment<T>) -> bool {
    match seg {
        BufferSegment::Zeros(n) => n > 0,
        BufferSegment::Samples { data, pos } => pos < data@.len(),
    }
}

proof fn lemma_segments_view_front<T>(segs: Seq<BufferSegment<T>>, silence: T)
    requires
        segs.len() > 0,
    ensures
        segments_view(segs, silence) == segment_view(segs[0], silence) + segments_view(
            segs.drop_first(),
            silence,
        ),
    decreases segs.len(),
{
    if segs.len() == 1 {
        assert(segs.drop_last() =~= Seq::<BufferSegment<T>>::empty());
        assert(segs.drop_first() =~= Seq::<BufferSegment<T>>::empty());
        assert(segment_view(segs[0], silence) + Seq::<T>::empty() =~= segment_view(segs[0], silence));
        assert(Seq::<T>::empty() + segment_view(segs[0], silence) =~= segment_view(segs[0], silence));
    } else {
        lemma_segments_view_front(segs.drop_last(), silence);
        assert(segs.drop_last().drop_first() =~= segs.drop_first().drop_last());
        assert(segs.drop_first().last() == segs.last());
        assert(segs.drop_last()[0] == segs[0]);
        assert((segment_view(segs[0], silence) + segments_view(segs.drop_first().drop_last(), silence))
            + segment_view(segs.last(), silence) =~= segment_view(segs[0], silence) + (segments_view(
            segs.drop_first().drop_last(), silence) + segment_view(segs.last(), silence)));
    }
}

proof fn lemma_segments_view_prepend<T>(x: BufferSegment<T>, segs: Seq<BufferSegment<T>>, silence: T)
    ensures
        segments_view(seq![x] + segs, silence) == segment_view(x, silence) + segments_view(segs, silence),
{
    let s2 = seq![x] + segs;
    lemma_segments_view_front(s2, silence);
    assert(s2.drop_first() =~= segs);
    assert(s2[0] == x);
}

impl<T: Copy> AlignedSampleBuffer<T> {
    /// The queued samples, oldest first.
    pub closed spec fn view(&self) -> Seq<T> {
        segments_view(self.segments@, self.silence)
    }

    /// The value a silent span yields.
    pub closed spec fn silence_value(&self) -> T {
        self.silence
    }

    /// The cached length matches the queued samples and no segment is exhausted.
    pub closed spec fn wf(&self) -> bool {
        &&& self.len_samples == self.view().len()
        &&& forall|i: int| 0 <= i < self.segments@.len() ==> #[trigger] segment_live(self.segments@[i])
    }

    /// Create an empty buffer whose silent spans yield `silence`.
    pub fn with_capacity(_capacity_samples: usize, silence: T) -> (r: Self)
        ensures
            r.wf(),
            r.view() == Seq::<T>::empty(),
            r.silence_value() == silence,
    {
        AlignedSampleBuffer { segments: VecDeque::new(), len_samples: 0, silence }
    }

    /// Number of queued samples.
    pub fn len(&self) -> (r: usize)
        requires
            self.wf(),
        ensures
            r == self.view().len(),
    {
        self.len_samples
    }

    /// Remove and return the oldest sample.
    pub fn pop_front(&mut self) -> (r: Option<T>)
        requires
            old(self).wf(),
        ensures
            final(self).wf(),
            final(self).silence_value() == old(self).silence_value(),
            old(self).view().len() == 0 ==> r is None && final(self).view() == old(self).view(),
            old(self).view().len() > 0 ==> r == Some(old(self).view()[0]) && final(self).view()
                == old(self).view().drop_first(),
    {
        let ghost segs = self.segments@;
        let ghost sil = self.silence;
        if self.segments.len() == 0 {
            return None;
        }
        proof {
            lemma_segments_view_front(segs, sil);
            assert(segment_live(segs[0]));
        }
        let front = self.segments.pop_front().unwrap();
        proof {
            assert(self.segments@ =~= segs.drop_first());
            assert(front == segs[0]);
        }
        match front {
            BufferSegment::Zeros(count) => {
                let ghost rest = self.segments@;
                if count > 1 {
                    self.segments.push_front(BufferSegment::Zeros(count - 1));
                    proof {
                        assert(self.segments@ =~= seq![BufferSegment::Zeros((count - 1) as usize)] + rest);
                        lemma_segments_view_prepend(BufferSegment::Zeros((count - 1) as usize), rest, sil);
                        assert(Seq::new((count - 1) as nat, |i: int| sil) + segments_view(rest, sil)
                            =~= (Seq::new(count as nat, |i: int| sil) + segments_view(rest, sil)).drop_first());
                    }
                } else {
                    proof {
                        assert(segments_view(rest, sil) =~= (Seq::new(count as nat, |i: int| sil)
                            + segments_view(rest, sil)).drop_first());
                    }
                }
                self.len_samples = self.len_samples - 1;
                proof {
                    assert forall|i: int| 0 <= i < self.segments@.len() implies #[trigger] segment_live(self.segments@[i]) by {
                        if count > 1 {
                            if i > 0 { assert(self.segments@[i] == segs[i]); }
                        } else {
                            assert(self.segments@[i] == segs[i + 1]);
                        }
                    }
                    assert((Seq::new(count as nat, |i: int| sil) + segments_view(rest, sil))[0] == sil);
                }
                Some(self.silence)
            },
            BufferSegment::Samples { data, pos } => {
                proof {
                    assert(segment_live(segs[0]));
                    assert(pos < data@.len());
                }
                let value = data[pos];
                let ghost rest = self.segments@;
                let ghost dv = data@.subrange(pos as int, data@.len() as int);
                let dlen = data.len();
                if pos + 1 < dlen {
                    let ghost ndata = data@;
                    self.segments.push_front(BufferSegment::Samples { data, pos: pos + 1 });
                    proof {
                        let seg = BufferSegment::Samples { data: self.segments@[0]->data, pos: (pos + 1) as usize };
                        assert(self.segments@ =~= seq![self.segments@[0]] + rest);
                        lemma_segments_view_prepend(self.segments@[0], rest, sil);
                        assert(ndata.subrange(pos + 1, ndata.len() as int) + segments_view(rest, sil)
                            =~= (dv + segments_view(rest, sil)).drop_first());
                    }
                } else {
                    proof {
                        assert(segments_view(rest, sil) =~= (dv + segments_view(rest, sil)).drop_first());
                    }
                }
                self.len_samples = self.len_samples - 1;
                proof {
                    assert forall|i: int| 0 <= i < self.segments@.len() implies #[trigger] segment_live(self.segments@[i]) by {
                        if pos + 1 < data@.len() {
                            if i > 0 { assert(self.segments@[i] == segs[i]); }
                        } else {
                            assert(self.segments@[i] == segs[i + 1]);
                        }
                    }
                    assert((dv + segments_view(rest, sil))[0] == value);
                }
                Some(value)
            },
        }
    }

    /// Append `count` silent samples, extending a trailing silent span.
    pub fn push_zeros(&mut self, count: usize)
        requires
            old(self).wf(),
            old(self).view().len() + count <= usize::MAX,
        ensures
            final(self).wf(),
            final(self).silence_value() == old(self).silence_value(),
            final(self).view() == old(self).view() + Seq::new(count as nat, |i: int| old(self).silence_value()),
    {
        let ghost segs = self.segments@;
        let ghost sil = self.silence;
        if count == 0 {
            assert(self.view() + Seq::new(0, |i: int| sil) =~= self.view());
            return;
        }
        let n = self.segments.len();
        let mut merged = false;
        if n > 0 {
            if let BufferSegment::Zeros(existing) = self.segments[n - 1] {
                let _ = self.segments.pop_back();
                self.segments.push_back(BufferSegment::Zeros(existing + count));
                merged = true;
                proof {
                    assert(self.segments@ =~= segs.drop_last().push(BufferSegment::Zeros((existing + count) as usize)));
                    assert(self.segments@.drop_last() =~= segs.drop_last());
                    assert(Seq::new(existing as nat, |i: int| sil) + Seq::new(count as nat, |i: int| sil)
                        =~= Seq::new((existing + count) as nat, |i: int| sil));
                    assert(segments_view(segs.drop_last(), sil) + Seq::new((existing + count) as nat, |i: int| sil)
                        =~= (segments_view(segs.drop_last(), sil) + Seq::new(existing as nat, |i: int| sil))
                        + Seq::new(count as nat, |i: int| sil));
                }
            }
        }
        if !merged {
            self.segments.push_back(BufferSegment::Zeros(count));
            proof {
                assert(self.segments@.drop_last() =~= segs);
            }
        }
        self.len_samples = self.len_samples + count;
        proof {
            assert forall|i: int| 0 <= i < self.segments@.len() implies #[trigger] segment_live(self.segments@[i]) by {
                if i < self.segments@.len() - 1 { assert(self.segments@[i] == segs[i]); }
            }
        }
    }

    /// Append owned samples as one span.
    pub fn push_owned_samples(&mut self, data: Vec<T>)
        requires
            old(self).wf(),
            old(self).view().len() + data@.len() <= usize::MAX,
        ensures
            final(self).wf(),
            final(self).silence_value() == old(self).silence_value(),
            final(self).view() == old(self).view() + data@,
    {
        let ghost segs = self.segments@;
        let ghost sil = self.silence;
        if data.len() == 0 {
            assert(self.view() + data@ =~= self.view());
            return;
        }
        let len = data.len();
        let ghost d = data@;
        self.segments.push_back(BufferSegment::Samples { data, pos: 0 });
        self.len_samples = self.len_samples + len;
        proof {
            assert(self.segments@.drop_last() =~= segs);
            assert(d.subrange(0, d.len() as int) =~= d);
            assert forall|i: int| 0 <= i < self.segments@.len() implies #[trigger] segment_live(self.segments@[i]) by {
                if i < self.segments@.len() - 1 { assert(self.segments@[i] == segs[i]); }
            }
        }
    }

    /// Append a copy of `slice` as one span.
    pub fn push_samples_from_slice(&mut self, slice: &[T])
        requires
            old(self).wf(),
            old(self).view().len() + slice@.len() <= usize::MAX,
        ensures
            final(self).wf(),
            final(self).silence_value() == old(self).silence_value(),
            final(self).view() == old(self).view() + slice@,
    {
        if slice.len() == 0 {
            assert(self.view() + slice@ =~= self.view());
            return;
        }
        let data = slice_to_vec(slice);
        self.push_owned_samples(data);
    }
}

} // verus!
