//! The gzip container on the writing side: the ten-byte header, the deflate
//! data of the blocks in stream order, and the eight-byte trailer.

use crate::block::Block;
use crate::bytes::append;
use crate::checksum::{accepted, folded, StreamState};
use crate::codec::{deflate_block, deflated, encoding};
use crate::crc::{crc32, Crc32Table};
use crate::error::Error;
use vstd::prelude::*;

verus! {

/// Length of the header this crate writes.
pub const HEADER_LEN: usize = 10;

/// Length of the trailer.
pub const TRAILER_LEN: usize = 8;

/// The header's hint at the effort spent: 2 for the highest level, 4 for the
/// two fastest, 0 otherwise.
pub open spec fn extra_flags(level: u32) -> u8 {
    if level >= 9 {
        2
    } else if level <= 1 {
        4
    } else {
        0
    }
}

/// The header: magic `1f 8b`, method 8, no flags, no modification time, the
/// effort hint, operating system 255 (unknown).
pub open spec fn header_bytes(level: u32) -> Seq<u8> {
    seq![0x1fu8, 0x8bu8, 8u8, 0u8, 0u8, 0u8, 0u8, 0u8, extra_flags(level), 0xffu8]
}

/// `v` as four bytes, least significant first.
pub open spec fn le32(v: u32) -> Seq<u8> {
    seq![v as u8, (v >> 8) as u8, (v >> 16) as u8, (v >> 24) as u8]
}

/// The number that four bytes, least significant first, stand for.
pub open spec fn from_le32(b: Seq<u8>) -> u32
    recommends
        b.len() == 4,
{
    (b[0] as u32) | ((b[1] as u32) << 8) | ((b[2] as u32) << 16) | ((b[3] as u32) << 24)
}

/// The trailer: checksum, then length modulo 2^32, both least significant
/// byte first.
pub open spec fn trailer_bytes(crc: u32, len: u32) -> Seq<u8> {
    le32(crc) + le32(len)
}

/// Reading back what `le32` wrote gives the number again.
pub proof fn lemma_le32_round_trip(v: u32)
    ensures
        le32(v).len() == 4,
        from_le32(le32(v)) == v,
{
    assert(((v as u8) as u32) | (((v >> 8) as u8) as u32) << 8 | (((v >> 16) as u8) as u32) << 16
        | (((v >> 24) as u8) as u32) << 24 == v) by (bit_vector);
}

/// Four bytes are the `le32` of the number they stand for.
pub proof fn lemma_from_le32_round_trip(b: Seq<u8>)
    requires
        b.len() == 4,
    ensures
        le32(from_le32(b)) == b,
{
    let (b0, b1, b2, b3) = (b[0], b[1], b[2], b[3]);
    let v = from_le32(b);
    assert(v as u8 == b0 && (v >> 8) as u8 == b1 && (v >> 16) as u8 == b2 && (v >> 24) as u8 == b3)
        by (bit_vector)
        requires
            v == (b0 as u32) | ((b1 as u32) << 8) | ((b2 as u32) << 16) | ((b3 as u32) << 24),
    ;
}

/// The deflate data of the blocks with contents `parts`, one after another.
/// Only the last block is finished, and only when `closing`.
pub open spec fn payload_of(parts: Seq<Seq<u8>>, level: u32, closing: bool) -> Seq<u8>
    decreases parts.len(),
{
    if parts.len() == 0 {
        Seq::empty()
    } else {
        payload_of(parts.drop_last(), level, false) + deflated(parts.last(), level, closing)
    }
}

/// The gzip member that the blocks with contents `parts` are framed as.
pub open spec fn member_of(parts: Seq<Seq<u8>>, level: u32) -> Seq<u8> {
    header_bytes(level) + payload_of(parts, level, true) + trailer_bytes(
        folded(parts).crc,
        folded(parts).len,
    )
}

/// A block after compression: its place in the stream, its deflate data, and
/// the checksum and length of the bytes it was made from.
pub struct CompressedBlock {
    /// Position of the block in the stream, from zero.
    pub index: u64,
    /// The block's deflate data.
    pub payload: Vec<u8>,
    /// CRC-32 of the block's uncompressed bytes.
    pub crc: u32,
    /// Number of the block's uncompressed bytes.
    pub len: u64,
    /// Whether this block ends the stream.
    pub last: bool,
}

impl CompressedBlock {
    /// This is the block made from `data` at `level`.
    pub open spec fn seals(self, data: Seq<u8>, level: u32) -> bool {
        &&& self.payload@ == deflated(data, level, self.last)
        &&& self.crc == crc32(data)
        &&& self.len == data.len()
    }
}

/// The deflate data of `blocks`, one after another.
pub open spec fn payloads(blocks: Seq<CompressedBlock>) -> Seq<u8>
    decreases blocks.len(),
{
    if blocks.len() == 0 {
        Seq::empty()
    } else {
        payloads(blocks.drop_last()) + blocks.last().payload@
    }
}

/// The running checksum and length after `blocks` have been accepted in
/// order.
pub open spec fn sums(blocks: Seq<CompressedBlock>) -> StreamState
    decreases blocks.len(),
{
    if blocks.len() == 0 {
        StreamState { crc: 0, len: 0 }
    } else {
        accepted(sums(blocks.drop_last()), blocks.last().crc, blocks.last().len as nat)
    }
}

/// `blocks` is a whole stream: at least one block, numbered from zero without
/// a gap, the last one and no other marked as the end.
pub open spec fn well_ordered(blocks: Seq<CompressedBlock>) -> bool {
    &&& blocks.len() >= 1
    &&& forall|i: int|
        0 <= i < blocks.len() ==> {
            &&& (#[trigger] blocks[i]).index == i
            &&& blocks[i].last == (i == blocks.len() - 1)
        }
}

/// The gzip member that `blocks` are framed as.
pub open spec fn framed(level: u32, blocks: Seq<CompressedBlock>) -> Seq<u8> {
    header_bytes(level) + payloads(blocks) + trailer_bytes(sums(blocks).crc, sums(blocks).len)
}

/// Blocks that were each made from the matching part carry the deflate data
/// and the sums of the parts.
pub proof fn lemma_sealed_blocks(
    blocks: Seq<CompressedBlock>,
    parts: Seq<Seq<u8>>,
    level: u32,
    closing: bool,
)
    requires
        blocks.len() == parts.len(),
        forall|i: int|
            0 <= i < blocks.len() ==> {
                &&& (#[trigger] blocks[i]).seals(parts[i], level)
                &&& blocks[i].last == (closing && i == blocks.len() - 1)
            },
    ensures
        payloads(blocks) == payload_of(parts, level, closing),
        sums(blocks) == folded(parts),
    decreases blocks.len(),
{
    if blocks.len() > 0 {
        let front = blocks.drop_last();
        lemma_sealed_blocks(front, parts.drop_last(), level, false);
    }
}

/// The header for a stream compressed at `level`.
pub fn gzip_header(level: u32) -> (header: Vec<u8>)
    ensures
        header@ == header_bytes(level),
{
    let hint: u8 = if level >= 9 {
        2
    } else if level <= 1 {
        4
    } else {
        0
    };
    let mut header: Vec<u8> = Vec::with_capacity(HEADER_LEN);
    header.push(0x1f);
    header.push(0x8b);
    header.push(8);
    header.push(0);
    header.push(0);
    header.push(0);
    header.push(0);
    header.push(0);
    header.push(hint);
    header.push(0xff);
    header
}

/// Appends `v` to `out`, least significant byte first.
pub fn put_le32(out: &mut Vec<u8>, v: u32)
    ensures
        final(out)@ == old(out)@ + le32(v),
{
    out.push(#[verifier::truncate] (v as u8));
    out.push(#[verifier::truncate] ((v >> 8) as u8));
    out.push(#[verifier::truncate] ((v >> 16) as u8));
    out.push(#[verifier::truncate] ((v >> 24) as u8));
}

/// Reads the number that the four bytes at `at` stand for.
pub fn read_le32(bytes: &[u8], at: usize) -> (v: u32)
    requires
        at + 4 <= bytes.len(),
    ensures
        v == from_le32(bytes@.subrange(at as int, at + 4)),
{
    let b0: u32 = bytes[at] as u32;
    let b1: u32 = bytes[at + 1] as u32;
    let b2: u32 = bytes[at + 2] as u32;
    let b3: u32 = bytes[at + 3] as u32;
    b0 | (b1 << 8) | (b2 << 16) | (b3 << 24)
}

/// The trailer for a stream with checksum `crc` and length `len` modulo 2^32.
pub fn gzip_trailer(crc: u32, len: u32) -> (trailer: Vec<u8>)
    ensures
        trailer@ == trailer_bytes(crc, len),
{
    let mut trailer: Vec<u8> = Vec::with_capacity(TRAILER_LEN);
    put_le32(&mut trailer, crc);
    put_le32(&mut trailer, len);
    trailer
}

/// Puts the engine's result for `block` together with the block's own
/// checksum and length. A missing result is a worker fault.
pub fn seal(block: &Block, table: &Crc32Table, payload: Option<Vec<u8>>) -> (sealed: Result<
    CompressedBlock,
    Error,
>)
    ensures
        match payload {
            Some(bytes) => (sealed matches Ok(cb) && cb.index == block.index && cb.payload
                == bytes && cb.crc == crc32(block.data@) && cb.len == block.data@.len()
                && cb.last == block.last),
            None => (sealed matches Err(e) && e == Error::Worker),
        },
{
    match payload {
        Some(bytes) => Ok(
            CompressedBlock {
                index: block.index,
                payload: bytes,
                crc: table.checksum(block.data.as_slice()),
                len: block.data.len() as u64,
                last: block.last,
            },
        ),
        None => Err(Error::Worker),
    }
}

/// Compresses one block on its own. This is the work of one worker for one
/// block; it reads nothing but the block.
pub fn compress_block(block: &Block, level: u32, table: &Crc32Table) -> (made: Result<
    CompressedBlock,
    Error,
>)
    ensures
        level > 9 ==> (made matches Err(e) && e == (Error::InvalidLevel { level })),
        level <= 9 ==> (made is Ok <==> encoding(block.data@, level, block.last) is Some),
        level <= 9 ==> match made {
            Ok(cb) => cb.index == block.index && cb.last == block.last && cb.seals(
                block.data@,
                level,
            ),
            Err(e) => e == Error::Worker,
        },
{
    if level > 9 {
        return Err(Error::InvalidLevel { level });
    }
    let payload = deflate_block(block.data.as_slice(), level, block.last);
    seal(block, table, payload)
}

/// Where a framer stands.
#[derive(Clone, Copy, Debug, PartialEq, Eq, Structural)]
pub enum FramerState {
    Start,
    HeaderWritten,
    BlockWritten,
    TrailerWritten,
    Closed,
}

/// The writer's side of one gzip member. It says which bytes go to the sink
/// next and refuses what would make the member malformed: a block out of
/// order, a block after the end, a trailer before the last block.
pub struct Framer {
    state: FramerState,
    level: u32,
    next_index: u64,
    ended: bool,
    sums: StreamState,
}

impl Framer {
    /// Where the framer stands.
    pub closed spec fn state(&self) -> FramerState {
        self.state
    }

    /// The level named in the header.
    pub closed spec fn level(&self) -> u32 {
        self.level
    }

    /// The index of the block that is written next.
    pub closed spec fn next_index(&self) -> u64 {
        self.next_index
    }

    /// Whether the block that ends the stream has been written.
    pub closed spec fn ended(&self) -> bool {
        self.ended
    }

    /// The checksum and length of the blocks written so far.
    pub closed spec fn sums(&self) -> StreamState {
        self.sums
    }

    /// Whether `block` may be written now.
    pub open spec fn accepts(&self, block: &CompressedBlock) -> bool {
        &&& self.state() == FramerState::HeaderWritten || self.state() == FramerState::BlockWritten
        &&& !self.ended()
        &&& block.index == self.next_index()
        &&& self.next_index() < u64::MAX
    }

    /// A framer at its start.
    pub fn new(level: u32) -> (framer: Framer)
        ensures
            framer.state() == FramerState::Start,
            framer.level() == level,
            framer.next_index() == 0,
            !framer.ended(),
            framer.sums() == (StreamState { crc: 0, len: 0 }),
    {
        Framer {
            state: FramerState::Start,
            level,
            next_index: 0,
            ended: false,
            sums: StreamState::new(),
        }
    }

    /// Where the framer stands.
    pub fn phase(&self) -> (state: FramerState)
        ensures
            state == self.state(),
    {
        self.state
    }

    /// Opens the member: hands out the header. Allowed at the start only.
    pub fn begin(&mut self) -> (header: Result<Vec<u8>, Error>)
        ensures
            final(self).level() == old(self).level(),
            final(self).next_index() == old(self).next_index(),
            final(self).ended() == old(self).ended(),
            final(self).sums() == old(self).sums(),
            old(self).state() == FramerState::Start ==> (header matches Ok(bytes) && bytes@
                == header_bytes(old(self).level())) && final(self).state()
                == FramerState::HeaderWritten,
            old(self).state() != FramerState::Start ==> (header matches Err(e) && e
                == Error::InvalidState) && final(self).state() == old(self).state(),
    {
        match self.state {
            FramerState::Start => {
                self.state = FramerState::HeaderWritten;
                Ok(gzip_header(self.level))
            },
            _ => Err(Error::InvalidState),
        }
    }

    /// Takes the next block in stream order; its deflate data is what goes to
    /// the sink next. A block that is not the next one, or that comes after
    /// the end or before the header, is refused and changes nothing.
    pub fn write_block(&mut self, block: &CompressedBlock) -> (taken: Result<(), Error>)
        ensures
            final(self).level() == old(self).level(),
            old(self).accepts(block) ==> taken is Ok && final(self).state()
                == FramerState::BlockWritten && final(self).next_index() == old(self).next_index()
                + 1 && final(self).ended() == block.last && final(self).sums() == accepted(
                old(self).sums(),
                block.crc,
                block.len as nat,
            ),
            !old(self).accepts(block) ==> (taken matches Err(e) && e == Error::InvalidState)
                && final(self).state() == old(self).state()
                && final(self).next_index() == old(self).next_index()
                && final(self).ended() == old(self).ended()
                && final(self).sums() == old(self).sums(),
    {
        let open = match self.state {
            FramerState::HeaderWritten => true,
            FramerState::BlockWritten => true,
            _ => false,
        };
        if !open || self.ended || block.index != self.next_index || self.next_index == u64::MAX {
            return Err(Error::InvalidState);
        }
        self.sums.accept(block.crc, block.len);
        self.next_index = self.next_index + 1;
        self.ended = block.last;
        self.state = FramerState::BlockWritten;
        Ok(())
    }

    /// Closes the member: hands out the trailer. Allowed only once the block
    /// that ends the stream has been written, so a run that stopped early
    /// never gets a trailer.
    pub fn finish(&mut self) -> (trailer: Result<Vec<u8>, Error>)
        ensures
            final(self).level() == old(self).level(),
            final(self).next_index() == old(self).next_index(),
            final(self).ended() == old(self).ended(),
            final(self).sums() == old(self).sums(),
            old(self).state() == FramerState::BlockWritten && old(self).ended() ==> (
            trailer matches Ok(bytes) && bytes@ == trailer_bytes(
                old(self).sums().crc,
                old(self).sums().len,
            )) && final(self).state() == FramerState::TrailerWritten,
            !(old(self).state() == FramerState::BlockWritten && old(self).ended()) ==> (
            trailer matches Err(e) && e == Error::InvalidState) && final(self).state()
                == old(self).state(),
    {
        let ready = match self.state {
            FramerState::BlockWritten => self.ended,
            _ => false,
        };
        if !ready {
            return Err(Error::InvalidState);
        }
        self.state = FramerState::TrailerWritten;
        let (crc, len) = self.sums.finalize();
        Ok(gzip_trailer(crc, len))
    }

    /// Ends the framer's life, whatever state it is in, and says whether the
    /// member was written in full.
    pub fn close(&mut self) -> (complete: bool)
        ensures
            complete == (old(self).state() == FramerState::TrailerWritten),
            final(self).state() == FramerState::Closed,
            final(self).level() == old(self).level(),
            final(self).next_index() == old(self).next_index(),
            final(self).ended() == old(self).ended(),
            final(self).sums() == old(self).sums(),
    {
        let complete = match self.state {
            FramerState::TrailerWritten => true,
            _ => false,
        };
        self.state = FramerState::Closed;
        complete
    }
}

/// Frames compressed blocks as one gzip member. The blocks must be a whole
/// stream in order; anything else is refused.
pub fn assemble(level: u32, blocks: &Vec<CompressedBlock>) -> (member: Result<Vec<u8>, Error>)
    ensures
        well_ordered(blocks@) ==> (member matches Ok(bytes) && bytes@ == framed(level, blocks@)),
        !well_ordered(blocks@) ==> (member matches Err(e) && e == Error::InvalidState),
{
    let mut framer = Framer::new(level);
    let mut out: Vec<u8> = match framer.begin() {
        Ok(header) => header,
        Err(e) => {
            return Err(e);
        },
    };
    let mut i: usize = 0;
    while i < blocks.len()
        invariant
            i <= blocks.len(),
            framer.level() == level,
            framer.next_index() == i,
            framer.state() == (if i == 0 {
                FramerState::HeaderWritten
            } else {
                FramerState::BlockWritten
            }),
            framer.ended() == (i > 0 && blocks@[i - 1].last),
            framer.sums() == sums(blocks@.take(i as int)),
            out@ == header_bytes(level) + payloads(blocks@.take(i as int)),
            forall|j: int| 0 <= j < i ==> (#[trigger] blocks@[j]).index == j,
            forall|j: int| 0 <= j < i - 1 ==> !(#[trigger] blocks@[j]).last,
        decreases blocks.len() - i,
    {
        let block = &blocks[i];
        match framer.write_block(block) {
            Ok(_) => {},
            Err(e) => {
                return Err(e);
            },
        }
        append(&mut out, block.payload.as_slice());
        proof {
            let upto = blocks@.take(i + 1);
            assert(upto.drop_last() =~= blocks@.take(i as int));
        }
        i = i + 1;
    }
    proof {
        assert(blocks@.take(blocks@.len() as int) =~= blocks@);
    }
    match framer.finish() {
        Ok(trailer) => {
            append(&mut out, trailer.as_slice());
            Ok(out)
        },
        Err(e) => Err(e),
    }
}

} // verus!
