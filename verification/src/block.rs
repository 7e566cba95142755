//! Cutting the input into blocks.
//!
//! Every block but the last holds exactly the block size; the last holds
//! what is left, at least one byte unless the whole input is empty. An empty
//! input still makes one block, empty and marked last, so that the stream
//! that is framed from it is a complete gzip member.

use crate::bytes::copy_range;
use crate::error::Error;
use vstd::prelude::*;

verus! {

/// One piece of the input, with its place in the order of the stream.
pub struct Block {
    /// Position of this block in the stream, from zero.
    pub index: u64,
    /// The bytes of the input that this block holds.
    pub data: Vec<u8>,
    /// Whether this is the block that ends the stream.
    pub last: bool,
}

/// The contents of the blocks that `input` is cut into.
pub open spec fn chunks(input: Seq<u8>, size: nat) -> Seq<Seq<u8>>
    decreases input.len(),
{
    if size == 0 || input.len() <= size {
        seq![input]
    } else {
        seq![input.take(size as int)] + chunks(input.skip(size as int), size)
    }
}

/// The contents of `blocks`, in order.
pub open spec fn contents(blocks: Seq<Block>) -> Seq<Seq<u8>> {
    Seq::new(blocks.len(), |i: int| blocks[i].data@)
}

/// `blocks` are the blocks with contents `parts`, numbered from `first`; the
/// last of them is marked as the end of the stream exactly when `closing`.
pub open spec fn numbered(blocks: Seq<Block>, parts: Seq<Seq<u8>>, first: nat, closing: bool) -> bool {
    &&& blocks.len() == parts.len()
    &&& forall|i: int|
        0 <= i < blocks.len() ==> {
            &&& (#[trigger] blocks[i]).index == first + i
            &&& blocks[i].data@ == parts[i]
            &&& blocks[i].last == (closing && i == blocks.len() - 1)
        }
}

/// The blocks put together again are the input.
pub proof fn lemma_chunks_flatten(input: Seq<u8>, size: nat)
    ensures
        chunks(input, size).flatten() == input,
    decreases input.len(),
{
    let parts = chunks(input, size);
    if size == 0 || input.len() <= size {
        parts.lemma_flatten_one_element();
    } else {
        let rest = chunks(input.skip(size as int), size);
        lemma_chunks_flatten(input.skip(size as int), size);
        assert(parts.drop_first() =~= rest);
    }
}

/// The sizes of the blocks: there is at least one, all but the last are
/// full, the last is not over the size, and only the block of an empty input
/// is empty.
pub proof fn lemma_chunks_sizes(input: Seq<u8>, size: nat)
    requires
        size > 0,
    ensures
        chunks(input, size).len() >= 1,
        forall|i: int|
            0 <= i < chunks(input, size).len() - 1 ==> (#[trigger] chunks(input, size)[i]).len()
                == size,
        chunks(input, size).last().len() <= size,
        chunks(input, size).last().len() == 0 <==> input.len() == 0,
        input.len() == 0 ==> chunks(input, size) == seq![input],
    decreases input.len(),
{
    if input.len() > size {
        lemma_chunks_sizes(input.skip(size as int), size);
        assert(chunks(input, size) == seq![input.take(size as int)] + chunks(
            input.skip(size as int),
            size,
        ));
    }
}

/// There are no more blocks than bytes, but for the one block of an empty
/// input.
pub proof fn lemma_chunks_count(input: Seq<u8>, size: nat)
    requires
        size > 0,
    ensures
        chunks(input, size).len() <= input.len() || chunks(input, size).len() == 1,
    decreases input.len(),
{
    if input.len() > size {
        lemma_chunks_count(input.skip(size as int), size);
    }
}

/// Full blocks in front of more input are the first blocks of the whole.
pub proof fn lemma_chunks_after_full(done: Seq<Seq<u8>>, rest: Seq<u8>, size: nat)
    requires
        size > 0,
        forall|i: int| 0 <= i < done.len() ==> (#[trigger] done[i]).len() == size,
        done.len() > 0 ==> rest.len() > 0,
    ensures
        chunks(done.flatten() + rest, size) == done + chunks(rest, size),
    decreases done.len(),
{
    if done.len() > 0 {
        let tail = done.drop_first();
        let whole = done.flatten() + rest;
        lemma_chunks_after_full(tail, rest, size);
        assert(whole.take(size as int) =~= done[0]);
        assert(whole.skip(size as int) =~= tail.flatten() + rest);
    }
}

/// Cuts `input` into blocks of `block_size` bytes.
pub fn split_blocks(input: &[u8], block_size: usize) -> (blocks: Vec<Block>)
    requires
        block_size > 0,
    ensures
        numbered(blocks@, chunks(input@, block_size as nat), 0, true),
{
    let mut blocks: Vec<Block> = Vec::new();
    let mut pos: usize = 0;
    let ghost mut done: Seq<Seq<u8>> = Seq::empty();
    proof {
        assert(input@.skip(0) =~= input@);
    }
    while input.len() - pos > block_size
        invariant
            block_size > 0,
            pos <= input.len(),
            blocks@.len() <= pos,
            chunks(input@, block_size as nat) == done + chunks(
                input@.skip(pos as int),
                block_size as nat,
            ),
            numbered(blocks@, done, 0, false),
        decreases input.len() - pos,
    {
        let data = copy_range(input, pos, pos + block_size);
        proof {
            let here = input@.skip(pos as int);
            assert(here.take(block_size as int) =~= data@);
            assert(here.skip(block_size as int) =~= input@.skip(pos + block_size));
            done = done.push(data@);
        }
        blocks.push(Block { index: blocks.len() as u64, data, last: false });
        pos = pos + block_size;
    }
    let data = copy_range(input, pos, input.len());
    blocks.push(Block { index: blocks.len() as u64, data, last: true });
    blocks
}

/// Cuts a stream into blocks as its bytes arrive, holding back no more than
/// one block's worth of them.
pub struct Splitter {
    block_size: usize,
    next_index: u64,
    total: u64,
    pending: Vec<u8>,
    seen: Ghost<Seq<u8>>,
    done: Ghost<Seq<Seq<u8>>>,
}

impl Splitter {
    /// The invariant of a splitter.
    pub closed spec fn wf(&self) -> bool {
        &&& self.block_size > 0
        &&& self.done@.len() == self.next_index
        &&& forall|i: int|
            0 <= i < self.done@.len() ==> (#[trigger] self.done@[i]).len() == self.block_size
        &&& self.done@.flatten() + self.pending@ == self.seen@
        &&& self.done@.len() <= self.done@.flatten().len()
        &&& self.done@.len() > 0 ==> self.pending@.len() > 0
        &&& self.pending@.len() <= self.block_size
        &&& self.total == self.seen@.len()
    }

    /// The size of every block but the last.
    pub closed spec fn block_size(&self) -> nat {
        self.block_size as nat
    }

    /// All the bytes pushed so far.
    pub closed spec fn seen(&self) -> Seq<u8> {
        self.seen@
    }

    /// The contents of the blocks handed out so far.
    pub closed spec fn emitted(&self) -> Seq<Seq<u8>> {
        self.done@
    }

    /// How many bytes are held back for the next block.
    pub closed spec fn buffered(&self) -> nat {
        self.pending@.len()
    }

    /// A splitter for blocks of `block_size` bytes; a size of zero is refused.
    pub fn new(block_size: usize) -> (made: Result<Splitter, Error>)
        ensures
            block_size == 0 <==> made is Err,
            made matches Err(e) ==> e == Error::InvalidBlockSize,
            made matches Ok(s) ==> s.wf() && s.block_size() == block_size && s.seen()
                == Seq::<u8>::empty() && s.emitted() == Seq::<Seq<u8>>::empty(),
    {
        if block_size == 0 {
            return Err(Error::InvalidBlockSize);
        }
        Ok(Splitter::with_size(block_size))
    }

    /// A splitter for blocks of `block_size` bytes, which is not zero.
    pub fn with_size(block_size: usize) -> (splitter: Splitter)
        requires
            block_size > 0,
        ensures
            splitter.wf(),
            splitter.block_size() == block_size,
            splitter.seen() == Seq::<u8>::empty(),
            splitter.emitted() == Seq::<Seq<u8>>::empty(),
    {
        let splitter = Splitter {
            block_size,
            next_index: 0,
            total: 0,
            pending: Vec::new(),
            seen: Ghost(Seq::empty()),
            done: Ghost(Seq::empty()),
        };
        splitter
    }

    /// Whether `n` more bytes can be pushed: the count of all bytes seen must
    /// stay within 64 bits.
    pub fn has_room(&self, n: usize) -> (room: bool)
        requires
            self.wf(),
        ensures
            room == (self.seen().len() + n <= u64::MAX),
    {
        n as u64 <= u64::MAX - self.total
    }

    /// The blocks handed out so far are the first blocks of everything seen,
    /// and one more block is still to come.
    pub proof fn lemma_emitted_are_chunks(&self)
        requires
            self.wf(),
        ensures
            chunks(self.seen(), self.block_size()).len() == self.emitted().len() + 1,
            forall|i: int|
                0 <= i < self.emitted().len() ==> #[trigger] self.emitted()[i] == chunks(
                    self.seen(),
                    self.block_size(),
                )[i],
            self.buffered() <= self.block_size(),
    {
        lemma_chunks_after_full(self.done@, self.pending@, self.block_size as nat);
    }

    /// Takes in the next bytes of the stream and hands out the blocks that
    /// are now known to be full and not the last.
    pub fn push(&mut self, chunk: &[u8]) -> (blocks: Vec<Block>)
        requires
            old(self).wf(),
            old(self).seen().len() + chunk@.len() <= u64::MAX,
        ensures
            final(self).wf(),
            final(self).block_size() == old(self).block_size(),
            final(self).seen() == old(self).seen() + chunk@,
            final(self).emitted() == old(self).emitted() + contents(blocks@),
            numbered(blocks@, contents(blocks@), old(self).emitted().len(), false),
    {
        let mut blocks: Vec<Block> = Vec::new();
        crate::bytes::append(&mut self.pending, chunk);
        self.total = self.total + chunk.len() as u64;
        proof {
            self.seen@ = self.seen@ + chunk@;
            assert(self.done@.flatten() + self.pending@ =~= self.seen@);
            assert(self.pending@.skip(0) =~= self.pending@);
        }
        let ghost buffer = self.pending@;
        let mut start: usize = 0;
        while self.pending.len() - start > self.block_size
            invariant
                self.pending@ == buffer,
                self.block_size > 0,
                self.block_size == old(self).block_size,
                start <= self.pending@.len(),
                self.done@.len() == self.next_index,
                forall|i: int|
                    0 <= i < self.done@.len() ==> (#[trigger] self.done@[i]).len()
                        == self.block_size,
                self.done@.flatten() + self.pending@.skip(start as int) == self.seen@,
                self.done@.len() <= self.done@.flatten().len(),
                self.done@.len() > 0 ==> self.pending@.len() - start > 0,
                self.total == self.seen@.len(),
                self.seen@ == old(self).seen@ + chunk@,
                self.done@ == old(self).done@ + contents(blocks@),
                numbered(blocks@, contents(blocks@), old(self).done@.len(), false),
            decreases self.pending@.len() - start,
        {
            let data = copy_range(self.pending.as_slice(), start, start + self.block_size);
            let ghost done_before = self.done@;
            proof {
                done_before.lemma_flatten_push(data@);
                assert(done_before.push(data@).flatten() + self.pending@.skip(
                    start + self.block_size,
                ) =~= self.seen@);
                self.done@ = done_before.push(data@);
            }
            blocks.push(Block { index: self.next_index, data, last: false });
            self.next_index = self.next_index + 1;
            start = start + self.block_size;
            proof {
                assert(self.done@ =~= old(self).done@ + contents(blocks@));
            }
        }
        let rest = self.pending.split_off(start);
        self.pending = rest;
        blocks
    }

    /// Ends the stream and hands out its last block.
    pub fn finish(self) -> (block: Block)
        requires
            self.wf(),
        ensures
            block.last,
            block.index == self.emitted().len(),
            self.emitted().push(block.data@) == chunks(self.seen(), self.block_size()),
    {
        proof {
            lemma_chunks_after_full(self.done@, self.pending@, self.block_size as nat);
        }
        Block { index: self.next_index, data: self.pending, last: true }
    }
}

} // verus!
