//! What holds of compression and decompression taken together.
//!
//! The deflate coding itself is done outside this crate, so these laws are
//! about everything around it: they take what the inflater returns as given
//! and say what the framing makes of it.

use crate::block::chunks;
use crate::checksum::low32;
use crate::codec::inflated;
use crate::compress::encoded;
use crate::crc::crc32;
use crate::decompress::{decode_stream, decoded};
use crate::compress::lemma_member_of_chunks;
use crate::error::{Category, CorruptKind, Error};
use crate::frame::{
    framed, header_bytes, le32, lemma_from_le32_round_trip, lemma_le32_round_trip,
    lemma_sealed_blocks, payload_of, trailer_bytes, well_ordered, CompressedBlock,
};
use crate::member::{checked_member, decode_member, parse_header};
use vstd::prelude::*;

verus! {

/// Order and content: a whole stream of results, each made from the block
/// of its index, is framed as the compressed stream for the input, whatever
/// order the results were made in.
pub proof fn lemma_framed_is_encoded(
    blocks: Seq<CompressedBlock>,
    input: Seq<u8>,
    level: u32,
    block_size: nat,
)
    requires
        well_ordered(blocks),
        blocks.len() == chunks(input, block_size).len(),
        forall|i: int|
            0 <= i < blocks.len() ==> (#[trigger] blocks[i]).seals(
                chunks(input, block_size)[i],
                level,
            ),
    ensures
        framed(level, blocks) == encoded(input, level, block_size),
{
    lemma_sealed_blocks(blocks, chunks(input, block_size), level, true);
    lemma_member_of_chunks(input, level, block_size);
}

/// The header that the compressor writes is read back as a header of ten
/// bytes, at every level.
pub proof fn lemma_header_round_trip(level: u32, rest: Seq<u8>)
    ensures
        parse_header(header_bytes(level) + rest) == Ok::<nat, CorruptKind>(10),
{
    assert((header_bytes(level) + rest)[3] == 0);
    assert(0u8 & 0xE0 == 0 && 0u8 & 4 == 0 && 0u8 & 8 == 0 && 0u8 & 16 == 0 && 0u8 & 2 == 0)
        by (bit_vector);
}

/// The last eight bytes of a compressed stream are the CRC-32 of the input
/// and its length modulo 2^32, whatever the level and the block size.
pub proof fn lemma_trailer_of_encoded(input: Seq<u8>, level: u32, block_size: nat)
    ensures
        encoded(input, level, block_size).len() >= 18,
        encoded(input, level, block_size).skip(encoded(input, level, block_size).len() - 8)
            == le32(crc32(input)) + le32(low32(input.len() as int)),
{
    assert(trailer_bytes(crc32(input), low32(input.len() as int)).len() == 8);
}

/// A member passes the trailer check exactly when its eight trailer bytes
/// are the checksum and the length of what the inflater returned. So a
/// changed bit anywhere in the trailer is always found.
pub proof fn lemma_trailer_guard(input: Seq<u8>, header_len: nat, data: Seq<u8>, used: nat)
    requires
        input.len() >= header_len + used + 8,
    ensures
        checked_member(input, header_len, Some((data, used))) is Ok <==> input.subrange(
            (header_len + used) as int,
            (header_len + used + 8) as int,
        ) == trailer_bytes(crc32(data), low32(data.len() as int)),
        checked_member(input, header_len, Some((data, used))) matches Err((kind, _)) ==> kind
            == CorruptKind::ChecksumMismatch || kind == CorruptKind::LengthMismatch,
{
    let at = (header_len + used) as int;
    let first = input.subrange(at, at + 4);
    let second = input.subrange(at + 4, at + 8);
    let both = input.subrange(at, at + 8);
    let want = trailer_bytes(crc32(data), low32(data.len() as int));
    assert(both =~= first + second);
    lemma_from_le32_round_trip(first);
    lemma_from_le32_round_trip(second);
    lemma_le32_round_trip(crc32(data));
    lemma_le32_round_trip(low32(data.len() as int));
    if both == want {
        assert(want.subrange(4, 8) =~= le32(low32(data.len() as int)));
    }
}

/// A compressed stream is one member that passes every check of the
/// decoder, given that the inflater returns the input for the stream's
/// deflate data and stops where that data ends.
pub proof fn lemma_encoded_member_checks(input: Seq<u8>, level: u32, block_size: nat)
    ensures
        parse_header(encoded(input, level, block_size)) == Ok::<nat, CorruptKind>(10),
        checked_member(
            encoded(input, level, block_size),
            10,
            Some((input, payload_of(chunks(input, block_size), level, true).len())),
        ) == Ok::<(Seq<u8>, nat), (CorruptKind, nat)>(
            (input, encoded(input, level, block_size).len()),
        ),
{
    let payload = payload_of(chunks(input, block_size), level, true);
    let trailer = trailer_bytes(crc32(input), low32(input.len() as int));
    let out = encoded(input, level, block_size);
    assert(out =~= header_bytes(level) + (payload + trailer));
    lemma_header_round_trip(level, payload + trailer);
    let at = 10 + payload.len() as int;
    assert(out.subrange(at, at + 8) =~= trailer);
    lemma_trailer_guard(out, 10, input, payload.len());
}

/// Round trip: decompressing a compressed stream gives the input back, at
/// every level and for every block size, given that the inflater undoes the
/// deflater on the stream's deflate data: it returns the input and stops
/// where the data ends.
pub proof fn lemma_round_trip(input: Seq<u8>, level: u32, block_size: nat)
    ensures
        inflated(encoded(input, level, block_size).skip(10)) == Some(
            (input, payload_of(chunks(input, block_size), level, true).len()),
        ) ==> decoded(encoded(input, level, block_size)) == Ok::<Seq<u8>, Error>(input),
{
    lemma_encoded_member_checks(input, level, block_size);
}

/// Every failure of the decoder is a corrupt-input failure.
pub proof fn lemma_failures_are_corrupt(input: Seq<u8>, member: nat, base: nat)
    ensures
        decode_stream(input, member, base) matches Err(e) ==> e.class() == Category::CorruptInput,
    decreases input.len(),
{
    match decode_member(input) {
        Err(_) => {},
        Ok((data, size)) => {
            if 0 < size < input.len() {
                lemma_failures_are_corrupt(input.skip(size as int), member + 1, base + size);
            }
        },
    }
}

/// The bytes that a stream decodes to do not depend on where the stream is
/// said to start; only the position named in a failure does.
pub proof fn lemma_decode_stream_anywhere(
    input: Seq<u8>,
    member: nat,
    base: nat,
    other_member: nat,
    other_base: nat,
)
    ensures
        decode_stream(input, member, base) is Ok <==> decode_stream(
            input,
            other_member,
            other_base,
        ) is Ok,
        decode_stream(input, member, base) matches Ok(bytes) ==> decode_stream(
            input,
            other_member,
            other_base,
        ) == Ok::<Seq<u8>, Error>(bytes),
    decreases input.len(),
{
    match decode_member(input) {
        Err(_) => {},
        Ok((data, size)) => {
            if 0 < size < input.len() {
                lemma_decode_stream_anywhere(
                    input.skip(size as int),
                    member + 1,
                    base + size,
                    other_member + 1,
                    other_base + size,
                );
            }
        },
    }
}

/// Members one after another decode to their contents one after another:
/// where the first member of a stream decodes to `data` and the rest of the
/// stream decodes to `tail`, the stream decodes to `data + tail`.
pub proof fn lemma_members_concatenate(
    first: Seq<u8>,
    rest: Seq<u8>,
    data: Seq<u8>,
    tail: Seq<u8>,
)
    ensures
        decode_member(first + rest) == Ok::<(Seq<u8>, nat), (CorruptKind, nat)>(
            (data, first.len()),
        ) && first.len() > 0 && rest.len() > 0 && decoded(rest) == Ok::<Seq<u8>, Error>(tail)
            ==> decoded(first + rest) == Ok::<Seq<u8>, Error>(data + tail),
{
    let whole = first + rest;
    if decode_member(whole) == Ok::<(Seq<u8>, nat), (CorruptKind, nat)>((data, first.len()))
        && first.len() > 0 && rest.len() > 0 && decoded(rest) == Ok::<Seq<u8>, Error>(tail) {
        assert(whole.skip(first.len() as int) =~= rest);
        lemma_decode_stream_anywhere(rest, 0, 0, 1, first.len());
    }
}

} // verus!
