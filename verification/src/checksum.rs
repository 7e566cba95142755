//! The running checksum and length of a stream, taken block by block.

use crate::crc::{crc32, crc32_combine, crc32_combined, lemma_crc32_concat, lemma_crc32_empty};
use vstd::prelude::*;

verus! {

/// The running CRC-32 and the running length, modulo 2^32, of the blocks
/// accepted so far.
#[derive(Clone, Copy, Debug, PartialEq, Eq, Structural)]
pub struct StreamState {
    pub crc: u32,
    pub len: u32,
}

/// `n` modulo 2^32.
pub open spec fn low32(n: int) -> u32 {
    (n % 0x1_0000_0000) as u32
}

/// The state after a block with checksum `crc` and length `len` has been
/// added to `state`.
pub open spec fn accepted(state: StreamState, crc: u32, len: nat) -> StreamState {
    StreamState { crc: crc32_combined(state.crc, crc, len), len: low32(state.len + len) }
}

/// The state after blocks with contents `parts` have been accepted in order.
pub open spec fn folded(parts: Seq<Seq<u8>>) -> StreamState
    decreases parts.len(),
{
    if parts.len() == 0 {
        StreamState { crc: 0, len: 0 }
    } else {
        accepted(folded(parts.drop_last()), crc32(parts.last()), parts.last().len())
    }
}

impl StreamState {
    /// This state is the checksum and length of `data`.
    pub open spec fn covers(self, data: Seq<u8>) -> bool {
        &&& self.crc == crc32(data)
        &&& self.len == low32(data.len() as int)
    }

    /// The state before any block.
    pub fn new() -> (state: StreamState)
        ensures
            state == (StreamState { crc: 0, len: 0 }),
            state.covers(Seq::<u8>::empty()),
    {
        proof {
            lemma_crc32_empty();
        }
        StreamState { crc: 0, len: 0 }
    }

    /// Adds the next block in stream order, given its own checksum and its
    /// length in bytes.
    pub fn accept(&mut self, crc: u32, len: u64)
        ensures
            *final(self) == accepted(*old(self), crc, len as nat),
    {
        let sum: u64 = (self.len as u64) + (len % 0x1_0000_0000);
        self.crc = crc32_combine(self.crc, crc, len);
        self.len = (sum % 0x1_0000_0000) as u32;
    }

    /// The pair for the gzip trailer: checksum, then length modulo 2^32.
    pub fn finalize(&self) -> (pair: (u32, u32))
        ensures
            pair == (self.crc, self.len),
    {
        (self.crc, self.len)
    }
}

/// A state that covers `data`, after accepting the checksum and length of
/// `block`, covers `data + block`.
pub proof fn lemma_accepted_covers(state: StreamState, data: Seq<u8>, block: Seq<u8>)
    requires
        state.covers(data),
    ensures
        accepted(state, crc32(block), block.len()).covers(data + block),
{
    lemma_crc32_concat(data, block);
    assert(low32(low32(data.len() as int) + block.len()) == low32((data + block).len() as int));
}

/// Accepting blocks one by one in stream order ends with the checksum and
/// length of the whole stream.
pub proof fn lemma_folded_covers(parts: Seq<Seq<u8>>)
    ensures
        folded(parts).covers(parts.flatten()),
    decreases parts.len(),
{
    if parts.len() == 0 {
        lemma_crc32_empty();
    } else {
        let front = parts.drop_last();
        lemma_folded_covers(front);
        lemma_accepted_covers(folded(front), front.flatten(), parts.last());
        front.lemma_flatten_push(parts.last());
        assert(front.push(parts.last()) =~= parts);
    }
}

} // verus!
