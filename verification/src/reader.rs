//! The compute half of the chunked byte source: a fixed-capacity buffer with a
//! read cursor. The I/O half (filling the buffer from a file) belongs to the
//! caller, who hands each chunk in through `fill_buffer`.

use vstd::prelude::*;

verus! {

/// A chunk buffer with a read cursor, presenting bytes one at a time in the
/// order they were handed in. Memory use is bounded by the configured
/// capacity, never by the length of the stream.
pub struct ChunkReader {
    buffer: Vec<u8>,
    cursor: usize,
    capacity: usize,
    consumed: Ghost<Seq<u8>>,
}

impl ChunkReader {
    /// Cursor within the current fill, fill within the configured capacity.
    pub closed spec fn wf(self) -> bool {
        &&& self.cursor <= self.buffer@.len()
        &&& self.buffer@.len() <= self.capacity
        &&& self.capacity > 0
    }

    /// The bytes of the current chunk not yet handed out.
    pub closed spec fn remaining(self) -> Seq<u8> {
        self.buffer@.skip(self.cursor as int)
    }

    /// Every byte handed out so far, in order.
    pub closed spec fn consumed(self) -> Seq<u8> {
        self.consumed@
    }

    /// The configured buffer capacity.
    pub closed spec fn buffer_capacity(self) -> nat {
        self.capacity as nat
    }

    /// An empty reader with the given buffer capacity.
    pub fn new(buffer_size: usize) -> (r: Self)
        requires
            buffer_size > 0,
        ensures
            r.wf(),
            r.buffer_capacity() == buffer_size,
            r.consumed() == Seq::<u8>::empty(),
            r.remaining() == Seq::<u8>::empty(),
    {
        ChunkReader { buffer: Vec::new(), cursor: 0, capacity: buffer_size, consumed: Ghost(Seq::empty()) }
    }

    /// Whether the current chunk has been fully handed out.
    pub fn buffer_exhausted(&self) -> (r: bool)
        requires
            self.wf(),
        ensures
            r <==> self.remaining().len() == 0,
    {
        self.cursor == self.buffer.len()
    }

    /// Load the next chunk: the first `read_bytes` bytes of `data`, which the
    /// caller obtained from one read of the underlying resource. The bytes
    /// already handed out are untouched; the chunk becomes the new remainder.
    /// Returns whether the chunk holds any bytes at all (a zero-byte read
    /// means the stream is finished).
    pub fn fill_buffer(&mut self, data: &Vec<u8>, read_bytes: usize) -> (has_more: bool)
        requires
            old(self).wf(),
            old(self).remaining().len() == 0,
            read_bytes <= data@.len(),
            read_bytes <= old(self).buffer_capacity(),
        ensures
            final(self).wf(),
            final(self).buffer_capacity() == old(self).buffer_capacity(),
            final(self).consumed() == old(self).consumed(),
            final(self).remaining() == data@.take(read_bytes as int),
            has_more <==> read_bytes > 0,
    {
        self.buffer.clear();
        let mut i: usize = 0;
        while i < read_bytes
            invariant
                i <= read_bytes,
                read_bytes <= data@.len(),
                self.buffer@ =~= data@.take(i as int),
                self.capacity == old(self).capacity,
                read_bytes <= self.capacity,
                self.consumed@ == old(self).consumed@,
            decreases read_bytes - i,
        {
            self.buffer.push(data[i]);
            i += 1;
        }
        self.cursor = 0;
        proof {
            assert(self.remaining() =~= data@.take(read_bytes as int));
        }
        read_bytes > 0
    }

    /// Hand out the next byte of the current chunk, or `None` when the chunk
    /// is exhausted and a refill (or end of stream) is due.
    pub fn next(&mut self) -> (r: Option<u8>)
        requires
            old(self).wf(),
        ensures
            final(self).wf(),
            final(self).buffer_capacity() == old(self).buffer_capacity(),
            old(self).remaining().len() == 0 ==> r is None && *final(self) == *old(self),
            old(self).remaining().len() > 0 ==> {
                &&& r == Some(old(self).remaining()[0])
                &&& final(self).remaining() == old(self).remaining().skip(1)
                &&& final(self).consumed() == old(self).consumed().push(old(self).remaining()[0])
            },
    {
        if self.cursor == self.buffer.len() {
            return None;
        }
        let b: u8 = self.buffer[self.cursor];
        self.cursor = self.cursor + 1;
        self.consumed = Ghost(self.consumed@.push(b));
        proof {
            assert(self.remaining() =~= old(self).remaining().skip(1));
        }
        Some(b)
    }

    /// Hand out every byte left in the current chunk, in order.
    pub fn drain(&mut self) -> (bytes: Vec<u8>)
        requires
            old(self).wf(),
        ensures
            final(self).wf(),
            final(self).buffer_capacity() == old(self).buffer_capacity(),
            bytes@ == old(self).remaining(),
            final(self).remaining().len() == 0,
            final(self).consumed() == old(self).consumed() + old(self).remaining(),
    {
        let mut out: Vec<u8> = Vec::new();
        while self.cursor < self.buffer.len()
            invariant
                self.wf(),
                self.capacity == old(self).capacity,
                out@ + self.remaining() == old(self).remaining(),
                self.consumed() == old(self).consumed() + out@,
            decreases self.remaining().len(),
        {
            let r: Option<u8> = self.next();
            proof {
                assert(r is Some);
            }
            match r {
                Some(b) => {
                    out.push(b);
                    proof {
                        assert(out@ + self.remaining() =~= old(self).remaining());
                    }
                },
                None => {},
            }
        }
        proof {
            assert(out@ =~= old(self).remaining());
            assert(self.consumed() =~= old(self).consumed() + old(self).remaining());
        }
        out
    }
}

/// `s` cut into successive chunks of at most `cap` bytes: the way a stream of
/// `s.len()` bytes comes out of reads into a buffer of capacity `cap`.
pub open spec fn chunks_of(s: Seq<u8>, cap: int) -> Seq<Seq<u8>>
    decreases s.len(),
{
    if s.len() == 0 {
        Seq::empty()
    } else if cap < 1 || s.len() <= cap {
        seq![s]
    } else {
        seq![s.take(cap)] + chunks_of(s.skip(cap), cap)
    }
}

/// Chunking never duplicates, drops or reorders bytes: for every capacity,
/// the chunks of a sequence concatenate back to exactly that sequence.
pub proof fn lemma_chunks_flatten(s: Seq<u8>, cap: int)
    requires
        cap >= 1,
    ensures
        chunks_of(s, cap).flatten() == s,
    decreases s.len(),
{
    if s.len() == 0 {
        assert(chunks_of(s, cap).flatten() =~= s);
    } else if s.len() <= cap {
        assert(seq![s].drop_first() =~= Seq::<Seq<u8>>::empty());
        assert(Seq::<Seq<u8>>::empty().flatten() =~= Seq::<u8>::empty());
        assert(seq![s].flatten() =~= s);
    } else {
        lemma_chunks_flatten(s.skip(cap), cap);
        assert((seq![s.take(cap)] + chunks_of(s.skip(cap), cap)).drop_first() =~= chunks_of(
            s.skip(cap),
            cap,
        ));
        assert(chunks_of(s, cap).flatten() =~= s.take(cap) + s.skip(cap));
        assert(s.take(cap) + s.skip(cap) =~= s);
    }
}

/// Every chunk a capacity-`cap` buffer sees is non-empty and fits the buffer.
pub proof fn lemma_chunks_bounded(s: Seq<u8>, cap: int)
    requires
        cap >= 1,
    ensures
        forall|i: int|
            0 <= i < chunks_of(s, cap).len() ==> 1 <= (#[trigger] chunks_of(s, cap)[i]).len()
                <= cap,
    decreases s.len(),
{
    if s.len() == 0 {
    } else if s.len() <= cap {
        assert(chunks_of(s, cap)[0] == s);
    } else {
        lemma_chunks_bounded(s.skip(cap), cap);
        let cs = chunks_of(s, cap);
        assert forall|i: int| 0 <= i < cs.len() implies 1 <= (#[trigger] cs[i]).len() <= cap by {
            if i == 0 {
                assert(cs[0] == s.take(cap));
            } else {
                assert(cs[i] == chunks_of(s.skip(cap), cap)[i - 1]);
            }
        }
    }
}

} // verus!
