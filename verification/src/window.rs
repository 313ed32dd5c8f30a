//! The working buffer of the byte-bounded policy: the bytes carried over from
//! the previous cut followed by the bytes read since.

use vstd::prelude::*;
use crate::error::ChunkError;
use crate::text::{find_cut, last_whitespace_end, lemma_last_whitespace_end};

verus! {

/// What one cut of a `CarryBuffer` yields.
pub enum Cut {
    /// The buffer was empty: the source is exhausted and nothing is pending.
    Exhausted,
    /// The next chunk. `last` is set when the buffer had not been filled up to
    /// its limit, which happens only once the source has run dry.
    Chunk { bytes: Vec<u8>, last: bool },
}

/// A buffer of at most `limit()` bytes. It is filled from the source, cut just
/// behind its last whitespace byte, and keeps what follows the cut for the
/// next round.
pub struct CarryBuffer {
    bytes: Vec<u8>,
    max_bytes: usize,
}

impl View for CarryBuffer {
    type V = Seq<u8>;

    closed spec fn view(&self) -> Seq<u8> {
        self.bytes@
    }
}

impl CarryBuffer {
    /// The byte budget this buffer was made with.
    pub closed spec fn limit(&self) -> nat {
        self.max_bytes as nat
    }

    /// The budget is positive and the buffer does not exceed it.
    pub closed spec fn wf(&self) -> bool {
        1 <= self.max_bytes && self.bytes@.len() <= self.max_bytes
    }

    /// An empty buffer for chunks of at most `max_bytes` bytes. A budget of
    /// zero is refused.
    pub fn new(max_bytes: usize) -> (r: Result<CarryBuffer, ChunkError>)
        ensures
            match r {
                Ok(b) => max_bytes >= 1 && b.wf() && b.limit() == max_bytes && b@ == Seq::<u8>::empty(),
                Err(e) => max_bytes == 0 && e == ChunkError::InvalidConfiguration,
            },
    {
        if max_bytes == 0 {
            Err(ChunkError::InvalidConfiguration)
        } else {
            Ok(CarryBuffer { bytes: Vec::new(), max_bytes })
        }
    }

    /// The number of bytes held.
    pub fn len(&self) -> (n: usize)
        ensures
            n == self@.len(),
    {
        self.bytes.len()
    }

    /// How many more bytes the buffer takes before it is full.
    pub fn room(&self) -> (n: usize)
        requires
            self.wf(),
        ensures
            n == self.limit() - self@.len(),
    {
        self.max_bytes - self.bytes.len()
    }

    /// Appends bytes read from the source.
    pub fn fill(&mut self, read: &[u8])
        requires
            old(self).wf(),
            old(self)@.len() + read@.len() <= old(self).limit(),
        ensures
            final(self).wf(),
            final(self).limit() == old(self).limit(),
            final(self)@ == old(self)@ + read@,
    {
        self.bytes.extend_from_slice(read);
        proof {
            assert(self.bytes@ =~= old(self).bytes@ + read@);
        }
    }

    /// Cuts the buffer just behind its last whitespace byte. The bytes up to
    /// the cut leave as the next chunk; the bytes behind it stay for the next
    /// round. An empty buffer yields `Exhausted`. A buffer without any
    /// whitespace byte cannot be cut between words: it is left as it is and
    /// the call fails with `TokenExceedsMaxBytes`.
    pub fn take_chunk(&mut self) -> (r: Result<Cut, ChunkError>)
        requires
            old(self).wf(),
        ensures
            final(self).wf(),
            final(self).limit() == old(self).limit(),
            match r {
                Ok(Cut::Exhausted) => old(self)@.len() == 0 && final(self)@ == old(self)@,
                Ok(Cut::Chunk { bytes, last }) => {
                    &&& last_whitespace_end(old(self)@) > 0
                    &&& bytes@ == old(self)@.take(last_whitespace_end(old(self)@) as int)
                    &&& final(self)@ == old(self)@.skip(last_whitespace_end(old(self)@) as int)
                    &&& last == (old(self)@.len() < old(self).limit())
                },
                Err(e) => {
                    &&& e == ChunkError::TokenExceedsMaxBytes
                    &&& old(self)@.len() > 0
                    &&& last_whitespace_end(old(self)@) == 0
                    &&& final(self)@ == old(self)@
                },
            },
    {
        let filled = self.bytes.len();
        if filled == 0 {
            return Ok(Cut::Exhausted);
        }
        let cut = find_cut(self.bytes.as_slice());
        if cut == 0 {
            return Err(ChunkError::TokenExceedsMaxBytes);
        }
        proof {
            lemma_last_whitespace_end(self.bytes@);
        }
        let last = filled < self.max_bytes;
        let mut chunk = self.bytes.split_off(cut);
        core::mem::swap(&mut self.bytes, &mut chunk);
        Ok(Cut::Chunk { bytes: chunk, last })
    }
}

} // verus!
