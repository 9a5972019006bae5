//! FIFO queue for premixed interleaved samples before DSP processing.
//!
//! The queue decouples track mixing from DSP chunking. It keeps explicit
//! head/tail indices over one contiguous vector: samples are appended at
//! the tail and read from the head, and consumed head space is reclaimed by
//! shifting the live samples to the front instead of growing the vector.

use vstd::prelude::*;

verus! {

/// Buffered premix stream of interleaved samples.
#[derive(Debug, Clone)]
pub struct PremixBuffer<T> {
    buf: Vec<T>,
    head: usize,
    tail: usize,
}

impl<T> View for PremixBuffer<T> {
    type V = Seq<T>;

    /// The queued samples, oldest first.
    closed spec fn view(&self) -> Seq<T> {
        self.buf@.subrange(self.head as int, self.tail as int)
    }
}

impl<T: Copy> PremixBuffer<T> {
    /// Head and tail lie inside the backing vector, in order.
    pub closed spec fn wf(&self) -> bool {
        self.head <= self.tail <= self.buf@.len()
    }

    /// Length of the backing vector: the most samples held at once so far.
    pub closed spec fn backing_len(&self) -> nat {
        self.buf@.len()
    }

    /// An empty queue.
    pub fn new() -> (r: Self)
        ensures
            r.wf(),
            r@ == Seq::<T>::empty(),
            r.backing_len() == 0,
    {
        let r = PremixBuffer { buf: Vec::new(), head: 0, tail: 0 };
        assert(r@ =~= Seq::<T>::empty());
        r
    }

    /// Number of queued samples.
    pub fn len(&self) -> (r: usize)
        requires
            self.wf(),
        ensures
            r == self@.len(),
    {
        self.tail - self.head
    }

    /// True when nothing is queued.
    pub fn is_empty(&self) -> (r: bool)
        requires
            self.wf(),
        ensures
            r == (self@.len() == 0),
    {
        self.head == self.tail
    }

    /// Length of the backing vector.
    pub fn capacity(&self) -> (r: usize)
        ensures
            r == self.backing_len(),
    {
        self.buf.len()
    }

    /// Move the live samples to the front of the backing vector.
    fn compact(&mut self)
        requires
            old(self).wf(),
        ensures
            final(self).wf(),
            final(self)@ == old(self)@,
            final(self).head == 0,
            final(self).backing_len() == old(self).backing_len(),
    {
        if self.head == 0 {
            return;
        }
        let ghost live_seq = self@;
        let live = self.tail - self.head;
        let head = self.head;
        let blen = self.buf.len();
        let mut k: usize = 0;
        while k < live
            invariant
                0 < head,
                blen == self.buf@.len(),
                k <= live,
                live == live_seq.len(),
                head + live <= self.buf@.len(),
                self.buf@.len() == old(self).buf@.len(),
                live_seq == old(self).buf@.subrange(head as int, head + live),
                forall|j: int| 0 <= j < k ==> #[trigger] self.buf@[j] == live_seq[j],
                forall|j: int| k <= j < live ==> #[trigger] self.buf@[head + j] == live_seq[j],
            decreases live - k,
        {
            let v = self.buf[head + k];
            self.buf.set(k, v);
            k = k + 1;
        }
        self.head = 0;
        self.tail = live;
        assert(self@ =~= live_seq);
    }

    /// Append interleaved samples to the queue. The backing vector grows
    /// only when the queued samples no longer fit in it, and then only to
    /// the queued length.
    pub fn push_interleaved(&mut self, samples: &[T])
        requires
            old(self).wf(),
            old(self).backing_len() + samples@.len() <= usize::MAX,
        ensures
            final(self).wf(),
            final(self)@ == old(self)@ + samples@,
            final(self).backing_len() == (if old(self)@.len() + samples@.len() > old(self).backing_len() {
                old(self)@.len() + samples@.len()
            } else {
                old(self).backing_len()
            }),
    {
        let ghost before = self@;
        let n = samples.len();
        if self.tail + n > self.buf.len() {
            self.compact();
        }
        let start = self.tail;
        let ghost backing0 = self.buf@.len();
        let mut k: usize = 0;
        while k < n
            invariant
                self.wf(),
                self.tail == start,
                k <= n,
                n == samples@.len(),
                self@ == before,
                self.buf@.len() == (if start + k > backing0 { start + k } else { backing0 as int }),
                backing0 + n <= usize::MAX,
                start <= backing0,
                forall|j: int| 0 <= j < k ==> #[trigger] self.buf@[start + j] == samples@[j],
                forall|j: int| self.head <= j < start ==> #[trigger] self.buf@[j] == before[j - self.head],
            decreases n - k,
        {
            if start + k < self.buf.len() {
                self.buf.set(start + k, samples[k]);
            } else {
                self.buf.push(samples[k]);
            }
            k = k + 1;
        }
        self.tail = start + n;
        assert forall|j: int| 0 <= j < self@.len() implies #[trigger] self@[j] == (before + samples@)[j] by {
            if j < before.len() {
                assert(self@[j] == self.buf@[self.head + j]);
            } else {
                assert(self@[j] == self.buf@[start + (j - before.len())]);
            }
        }
        assert(self@ =~= before + samples@);
    }

    /// Drop the first `take` queued samples, compacting when the consumed
    /// head space is at least the live length.
    fn advance(&mut self, take: usize)
        requires
            old(self).wf(),
            take <= old(self)@.len(),
        ensures
            final(self).wf(),
            final(self)@ == old(self)@.skip(take as int),
            final(self).backing_len() == old(self).backing_len(),
    {
        let ghost before = self@;
        self.head = self.head + take;
        assert(self@ =~= before.skip(take as int));
        if self.head >= self.tail - self.head {
            self.compact();
        }
    }

    /// Pop up to `sample_count` samples from the front, in order.
    pub fn pop_chunk(&mut self, sample_count: usize) -> (r: Vec<T>)
        requires
            old(self).wf(),
        ensures
            final(self).wf(),
            r@ == old(self)@.take(if sample_count < old(self)@.len() { sample_count as int } else { old(self)@.len() as int }),
            final(self)@ == old(self)@.skip(r@.len() as int),
            final(self).backing_len() == old(self).backing_len(),
    {
        let len = self.tail - self.head;
        let take = if sample_count < len { sample_count } else { len };
        let mut out: Vec<T> = Vec::new();
        let mut k: usize = 0;
        while k < take
            invariant
                self.wf(),
                self == old(self),
                take <= self@.len(),
                k <= take,
                out@ == self@.take(k as int),
            decreases take - k,
        {
            out.push(self.buf[self.head + k]);
            assert(out@ =~= self@.take(k + 1));
            k = k + 1;
        }
        self.advance(take);
        out
    }

    /// Pop up to `out.len()` samples into `out`, in order; returns how many
    /// were written. The rest of `out` is left as it was.
    pub fn pop_chunk_into(&mut self, out: &mut [T]) -> (r: usize)
        requires
            old(self).wf(),
        ensures
            final(self).wf(),
            r == (if old(out)@.len() < old(self)@.len() { old(out)@.len() } else { old(self)@.len() }),
            final(out)@ == old(self)@.take(r as int) + old(out)@.skip(r as int),
            final(self)@ == old(self)@.skip(r as int),
            final(self).backing_len() == old(self).backing_len(),
    {
        let len = self.tail - self.head;
        let take = if out.len() < len { out.len() } else { len };
        let mut k: usize = 0;
        while k < take
            invariant
                self.wf(),
                self == old(self),
                take <= self@.len(),
                take <= out@.len(),
                out@.len() == old(out)@.len(),
                k <= take,
                out@ == self@.take(k as int) + old(out)@.skip(k as int),
            decreases take - k,
        {
            out[k] = self.buf[self.head + k];
            assert(out@ =~= self@.take(k + 1) + old(out)@.skip(k + 1));
            k = k + 1;
        }
        self.advance(take);
        take
    }
}

impl<T: Copy> Default for PremixBuffer<T> {
    fn default() -> (r: Self)
        ensures
            r.wf(),
            r@ == Seq::<T>::empty(),
            r.backing_len() == 0,
    {
        Self::new()
    }
}

/// Samples leave the queue in the order they entered: after pushing `s`
/// onto a queue holding `q`, popping `q.len()` samples gives back `q` and
/// leaves exactly `s` queued.
pub proof fn lemma_fifo<T>(q: Seq<T>, s: Seq<T>)
    ensures
        (q + s).take(q.len() as int) == q,
        (q + s).skip(q.len() as int) == s,
{
    assert((q + s).take(q.len() as int) =~= q);
    assert((q + s).skip(q.len() as int) =~= s);
}

} // verus!
