use vstd::prelude::*;

use std::sync::atomic::AtomicUsize;
use std::sync::Arc;

verus! {

/// Wraps the byte source of the audio decode path and counts the bytes read
/// through it. The count is also published in a shared atomic so that a task
/// running concurrently can read it (with relaxed ordering).
pub struct CountingReadWrapper<R> {
    inner: R,
    total: usize,
    count: Arc<AtomicUsize>,
}

impl<R> CountingReadWrapper<R> {
    /// The wrapped byte source.
    pub closed spec fn spec_inner(&self) -> R {
        self.inner
    }

    /// Bytes counted so far.
    pub closed spec fn spec_total(&self) -> nat {
        self.total as nat
    }

    /// A wrapper around `inner` that has counted nothing.
    pub fn new(inner: R) -> (r: Self)
        ensures
            r.spec_inner() == inner,
            r.spec_total() == 0,
    {
        CountingReadWrapper { inner, total: 0, count: Arc::new(AtomicUsize::new(0)) }
    }

    /// Accounts for a successful read of `n` bytes and publishes the new
    /// total. The count stops at `usize::MAX` rather than wrapping.
    pub fn record_read(&mut self, n: usize)
        ensures
            final(self).spec_inner() == old(self).spec_inner(),
            final(self).spec_total() as int == if old(self).spec_total() + n > usize::MAX {
                usize::MAX as int
            } else {
                old(self).spec_total() + n
            },
    {
        self.total = self.total.saturating_add(n);
        self.count.store(self.total, std::sync::atomic::Ordering::Relaxed);
    }

    /// The wrapped byte source, to read from.
    pub fn inner_mut(&mut self) -> (r: &mut R)
        ensures
            *r == old(self).spec_inner(),
            final(self).spec_inner() == *final(r),
            final(self).spec_total() == old(self).spec_total(),
    {
        &mut self.inner
    }

    /// Bytes counted so far.
    pub fn bytes_observed(&self) -> (r: usize)
        ensures
            r == self.spec_total(),
    {
        self.total
    }

    /// The shared counter that each `record_read` publishes to.
    pub fn counter(&self) -> &Arc<AtomicUsize> {
        &self.count
    }
}

/// Concatenation of a sequence of chunks.
pub open spec fn flatten(chunks: Seq<Seq<u8>>) -> Seq<u8>
    decreases chunks.len(),
{
    if chunks.len() == 0 {
        seq![]
    } else {
        flatten(chunks.drop_last()) + chunks.last()
    }
}

pub open spec fn chunks_view(chunks: Seq<Vec<u8>>) -> Seq<Seq<u8>> {
    chunks.map_values(|c: Vec<u8>| c@)
}

/// Relays one upstream byte stream to two downstream consumers (the audio
/// path and the companion path) in fixed-size chunks. A failed write to one
/// consumer skips that chunk for that consumer only; the relay stops when
/// the upstream ends or cancellation is seen.
pub struct FanOutRelay {
    chunk_size: usize,
    pending: Vec<u8>,
    running: bool,
    forwarded: u64,
    delivered_audio: u64,
    delivered_companion: u64,
}

/// Counter increment that stops at `u64::MAX`.
pub open spec fn bump(n: u64, ok: bool) -> u64 {
    if ok && n < u64::MAX {
        (n + 1) as u64
    } else {
        n
    }
}

impl FanOutRelay {
    pub closed spec fn spec_chunk_size(&self) -> nat {
        self.chunk_size as nat
    }

    /// Bytes received that do not yet fill a chunk.
    pub closed spec fn spec_pending(&self) -> Seq<u8> {
        self.pending@
    }

    pub closed spec fn spec_running(&self) -> bool {
        self.running
    }

    pub closed spec fn spec_forwarded(&self) -> u64 {
        self.forwarded
    }

    pub closed spec fn spec_delivered_audio(&self) -> u64 {
        self.delivered_audio
    }

    pub closed spec fn spec_delivered_companion(&self) -> u64 {
        self.delivered_companion
    }

    pub open spec fn wf(&self) -> bool {
        self.spec_chunk_size() > 0 && self.spec_pending().len() < self.spec_chunk_size()
    }

    /// A running relay with nothing received or delivered.
    pub fn new(chunk_size: usize) -> (r: FanOutRelay)
        requires
            chunk_size > 0,
        ensures
            r.wf(),
            r.spec_chunk_size() == chunk_size,
            r.spec_pending() == Seq::<u8>::empty(),
            r.spec_running(),
            r.spec_forwarded() == 0,
            r.spec_delivered_audio() == 0,
            r.spec_delivered_companion() == 0,
    {
        FanOutRelay {
            chunk_size,
            pending: Vec::new(),
            running: true,
            forwarded: 0,
            delivered_audio: 0,
            delivered_companion: 0,
        }
    }

    /// Takes bytes from upstream and returns the complete chunks they fill,
    /// in order; the remainder waits for more bytes.
    pub fn push_bytes(&mut self, bytes: &[u8]) -> (chunks: Vec<Vec<u8>>)
        requires
            old(self).wf(),
        ensures
            final(self).wf(),
            flatten(chunks_view(chunks@)) + final(self).spec_pending() == old(self).spec_pending()
                + bytes@,
            forall|i: int|
                0 <= i < chunks@.len() ==> (#[trigger] chunks@[i])@.len()
                    == old(self).spec_chunk_size(),
            final(self).spec_chunk_size() == old(self).spec_chunk_size(),
            final(self).spec_running() == old(self).spec_running(),
            final(self).spec_forwarded() == old(self).spec_forwarded(),
            final(self).spec_delivered_audio() == old(self).spec_delivered_audio(),
            final(self).spec_delivered_companion() == old(self).spec_delivered_companion(),
    {
        let ghost start = self.pending@;
        let mut chunks: Vec<Vec<u8>> = Vec::new();
        let mut i: usize = 0;
        while i < bytes.len()
            invariant
                i <= bytes@.len(),
                self.chunk_size == old(self).chunk_size,
                self.running == old(self).running,
                self.forwarded == old(self).forwarded,
                self.delivered_audio == old(self).delivered_audio,
                self.delivered_companion == old(self).delivered_companion,
                self.wf(),
                start == old(self).spec_pending(),
                flatten(chunks_view(chunks@)) + self.pending@ == start + bytes@.take(i as int),
                forall|t: int|
                    0 <= t < chunks@.len() ==> (#[trigger] chunks@[t])@.len() == self.chunk_size,
            decreases bytes@.len() - i,
        {
            let ghost before = flatten(chunks_view(chunks@));
            let ghost p_old = self.pending@;
            self.pending.push(bytes[i]);
            let ghost b = bytes@[i as int];
            assert(bytes@.take(i + 1) =~= bytes@.take(i as int).push(b));
            assert(before + p_old.push(b) =~= (before + p_old).push(b));
            assert((start + bytes@.take(i as int)).push(b) =~= start + bytes@.take(i as int).push(b));
            assert(before + self.pending@ =~= start + bytes@.take(i + 1));
            if self.pending.len() == self.chunk_size {
                let mut full: Vec<u8> = Vec::new();
                std::mem::swap(&mut full, &mut self.pending);
                let ghost prev = chunks_view(chunks@);
                chunks.push(full);
                assert(chunks_view(chunks@).drop_last() =~= prev);
                assert(flatten(chunks_view(chunks@)) + self.pending@ =~= before + full@);
            }
            i = i + 1;
        }
        assert(bytes@.take(bytes@.len() as int) =~= bytes@);
        chunks
    }

    /// Records the outcome of forwarding one chunk to both consumers and the
    /// cancellation check that follows it. A failed write only leaves that
    /// consumer's count unchanged. Returns whether to read another chunk.
    pub fn after_chunk(&mut self, audio_ok: bool, companion_ok: bool, cancelled: bool) -> (keep_going: bool)
        requires
            old(self).spec_running(),
        ensures
            keep_going == !cancelled,
            final(self).spec_running() == !cancelled,
            final(self).spec_forwarded() == bump(old(self).spec_forwarded(), true),
            final(self).spec_delivered_audio() == bump(old(self).spec_delivered_audio(), audio_ok),
            final(self).spec_delivered_companion() == bump(
                old(self).spec_delivered_companion(),
                companion_ok,
            ),
            final(self).spec_pending() == old(self).spec_pending(),
            final(self).spec_chunk_size() == old(self).spec_chunk_size(),
    {
        self.forwarded = self.forwarded.saturating_add(1);
        if audio_ok {
            self.delivered_audio = self.delivered_audio.saturating_add(1);
        }
        if companion_ok {
            self.delivered_companion = self.delivered_companion.saturating_add(1);
        }
        if cancelled {
            self.running = false;
        }
        !cancelled
    }

    /// The upstream ended: the relay stops.
    pub fn on_upstream_end(&mut self)
        ensures
            !final(self).spec_running(),
            final(self).spec_pending() == old(self).spec_pending(),
            final(self).spec_chunk_size() == old(self).spec_chunk_size(),
            final(self).spec_forwarded() == old(self).spec_forwarded(),
            final(self).spec_delivered_audio() == old(self).spec_delivered_audio(),
            final(self).spec_delivered_companion() == old(self).spec_delivered_companion(),
    {
        self.running = false;
    }

    pub fn is_running(&self) -> (r: bool)
        ensures
            r == self.spec_running(),
    {
        self.running
    }

    pub fn forwarded(&self) -> (r: u64)
        ensures
            r == self.spec_forwarded(),
    {
        self.forwarded
    }

    pub fn delivered_audio(&self) -> (r: u64)
        ensures
            r == self.spec_delivered_audio(),
    {
        self.delivered_audio
    }

    pub fn delivered_companion(&self) -> (r: u64)
        ensures
            r == self.spec_delivered_companion(),
    {
        self.delivered_companion
    }
}

} // verus!
