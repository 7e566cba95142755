//! One gzip member on the reading side: its header, its deflate data, and
//! the trailer that the decoded bytes are checked against.

use crate::checksum::low32;
use crate::codec::{inflate_stream, inflated};
use crate::crc::{crc32, Crc32Table};
use crate::error::CorruptKind;
use crate::frame::{from_le32, read_le32};
use vstd::prelude::*;
use vstd::slice::slice_subrange;

verus! {

/// Flag bit: a two-byte checksum of the header follows it.
pub const FHCRC: u8 = 2;

/// Flag bit: an extra field is present.
pub const FEXTRA: u8 = 4;

/// Flag bit: a zero-terminated file name is present.
pub const FNAME: u8 = 8;

/// Flag bit: a zero-terminated comment is present.
pub const FCOMMENT: u8 = 16;

/// The flag bits that must be zero.
pub const FRESERVED: u8 = 0xE0;

/// The longest file name or comment accepted, not counting its terminator.
pub const MAX_FIELD: usize = 65535;

/// The number that two bytes, least significant first, stand for.
pub open spec fn le16(lo: u8, hi: u8) -> nat {
    (lo as nat) + 256 * (hi as nat)
}

/// The position after the extra field, if the flags announce one.
pub open spec fn skip_extra(input: Seq<u8>, pos: nat) -> Result<nat, CorruptKind> {
    if input[3] & 4 == 0 {
        Ok(pos)
    } else if input.len() < pos + 2 {
        Err(CorruptKind::TruncatedHeader)
    } else if input.len() < pos + 2 + le16(input[pos as int], input[(pos + 1) as int]) {
        Err(CorruptKind::TruncatedHeader)
    } else {
        Ok(pos + 2 + le16(input[pos as int], input[(pos + 1) as int]))
    }
}

/// The position after the zero byte that ends the text starting at `pos`, of
/// which `taken` bytes lie before `pos`.
pub open spec fn skip_text(input: Seq<u8>, pos: nat, taken: nat) -> Result<nat, CorruptKind>
    decreases input.len() - pos,
{
    if pos >= input.len() {
        Err(CorruptKind::TruncatedHeader)
    } else if input[pos as int] == 0 {
        Ok(pos + 1)
    } else if taken >= 65535 {
        Err(CorruptKind::FieldTooLong)
    } else {
        skip_text(input, pos + 1, taken + 1)
    }
}

/// The position after the file name, if the flags announce one.
pub open spec fn skip_name(input: Seq<u8>, pos: nat) -> Result<nat, CorruptKind> {
    if input[3] & 8 == 0 {
        Ok(pos)
    } else {
        skip_text(input, pos, 0)
    }
}

/// The position after the comment, if the flags announce one.
pub open spec fn skip_comment(input: Seq<u8>, pos: nat) -> Result<nat, CorruptKind> {
    if input[3] & 16 == 0 {
        Ok(pos)
    } else {
        skip_text(input, pos, 0)
    }
}

/// The position after the header checksum, if the flags announce one: the
/// low 16 bits of the CRC-32 of all header bytes before it.
pub open spec fn skip_header_crc(input: Seq<u8>, pos: nat) -> Result<nat, CorruptKind> {
    if input[3] & 2 == 0 {
        Ok(pos)
    } else if input.len() < pos + 2 {
        Err(CorruptKind::TruncatedHeader)
    } else if le16(input[pos as int], input[(pos + 1) as int]) != (crc32(input.take(pos as int))
        & 0xffff) {
        Err(CorruptKind::HeaderChecksum)
    } else {
        Ok(pos + 2)
    }
}

/// The length of the member header at the front of `input`, or what is wrong
/// with it.
pub open spec fn parse_header(input: Seq<u8>) -> Result<nat, CorruptKind> {
    if input.len() < 10 {
        Err(CorruptKind::TruncatedHeader)
    } else if input[0] != 0x1f || input[1] != 0x8b {
        Err(CorruptKind::BadMagic)
    } else if input[2] != 8 {
        Err(CorruptKind::UnsupportedMethod)
    } else if input[3] & 0xE0 != 0 {
        Err(CorruptKind::ReservedFlags)
    } else {
        match skip_extra(input, 10) {
            Err(kind) => Err(kind),
            Ok(after_extra) => match skip_name(input, after_extra) {
                Err(kind) => Err(kind),
                Ok(after_name) => match skip_comment(input, after_name) {
                    Err(kind) => Err(kind),
                    Ok(after_comment) => skip_header_crc(input, after_comment),
                },
            },
        }
    }
}

/// What a member is decoded to, given the length `header_len` of its header
/// and what the inflater made of the bytes after the header: the decoded
/// bytes and the member's whole length, or the fault and its offset.
pub open spec fn checked_member(
    input: Seq<u8>,
    header_len: nat,
    decoded: Option<(Seq<u8>, nat)>,
) -> Result<(Seq<u8>, nat), (CorruptKind, nat)> {
    match decoded {
        None => Err((CorruptKind::BadDeflate, header_len)),
        Some((data, used)) => {
            let at = header_len + used;
            if input.len() < at + 8 {
                Err((CorruptKind::TruncatedTrailer, at))
            } else if from_le32(input.subrange(at as int, (at + 4) as int)) != crc32(data) {
                Err((CorruptKind::ChecksumMismatch, at))
            } else if from_le32(input.subrange((at + 4) as int, (at + 8) as int)) != low32(data.len() as int) {
                Err((CorruptKind::LengthMismatch, at + 4))
            } else {
                Ok((data, at + 8))
            }
        },
    }
}

/// What the member at the front of `input` is decoded to.
pub open spec fn decode_member(input: Seq<u8>) -> Result<(Seq<u8>, nat), (CorruptKind, nat)> {
    match parse_header(input) {
        Err(kind) => Err((kind, 0)),
        Ok(header_len) => checked_member(
            input,
            header_len,
            inflated(input.skip(header_len as int)),
        ),
    }
}

/// The plain-value form of an inflater result.
pub open spec fn decoded_view(decoded: Option<(Vec<u8>, usize)>) -> Option<(Seq<u8>, nat)> {
    match decoded {
        Some((bytes, used)) => Some((bytes@, used as nat)),
        None => None,
    }
}

/// A header that parses is at least ten bytes long and lies within the input.
pub proof fn lemma_header_bounds(input: Seq<u8>)
    ensures
        parse_header(input) matches Ok(n) ==> 10 <= n <= input.len(),
{
    if parse_header(input) is Ok {
        let after_extra = skip_extra(input, 10)->Ok_0;
        let after_name = skip_name(input, after_extra)->Ok_0;
        if input[3] & 8 != 0 {
            lemma_text_bounds(input, after_extra, 0);
        }
        if input[3] & 16 != 0 {
            lemma_text_bounds(input, after_name, 0);
        }
    }
}

proof fn lemma_text_bounds(input: Seq<u8>, pos: nat, taken: nat)
    ensures
        skip_text(input, pos, taken) matches Ok(n) ==> pos < n <= input.len(),
    decreases input.len() - pos,
{
    if pos < input.len() && input[pos as int] != 0 && taken < 65535 {
        lemma_text_bounds(input, pos + 1, taken + 1);
    }
}

fn read_text(input: &[u8], pos: usize) -> (end: Result<usize, CorruptKind>)
    requires
        pos <= input.len(),
    ensures
        match end {
            Ok(n) => skip_text(input@, pos as nat, 0) == Ok::<nat, CorruptKind>(n as nat) && pos
                < n <= input.len(),
            Err(kind) => skip_text(input@, pos as nat, 0) == Err::<nat, CorruptKind>(kind),
        },
{
    let mut at: usize = pos;
    let mut taken: usize = 0;
    loop
        invariant
            pos <= at <= input.len(),
            taken == at - pos,
            taken <= 65535,
            skip_text(input@, pos as nat, 0) == skip_text(input@, at as nat, taken as nat),
        decreases input.len() - at,
    {
        if at >= input.len() {
            return Err(CorruptKind::TruncatedHeader);
        }
        if input[at] == 0 {
            return Ok(at + 1);
        }
        if taken >= MAX_FIELD {
            return Err(CorruptKind::FieldTooLong);
        }
        at = at + 1;
        taken = taken + 1;
    }
}

/// Reads the member header at the front of `input` and returns its length.
pub fn read_header(input: &[u8], table: &Crc32Table) -> (header: Result<usize, CorruptKind>)
    ensures
        match header {
            Ok(n) => parse_header(input@) == Ok::<nat, CorruptKind>(n as nat) && 10 <= n
                <= input.len(),
            Err(kind) => parse_header(input@) == Err::<nat, CorruptKind>(kind),
        },
{
    if input.len() < 10 {
        return Err(CorruptKind::TruncatedHeader);
    }
    if input[0] != 0x1f || input[1] != 0x8b {
        return Err(CorruptKind::BadMagic);
    }
    if input[2] != 8 {
        return Err(CorruptKind::UnsupportedMethod);
    }
    let flags: u8 = input[3];
    if flags & FRESERVED != 0 {
        return Err(CorruptKind::ReservedFlags);
    }
    let mut pos: usize = 10;
    if flags & FEXTRA != 0 {
        if input.len() - pos < 2 {
            return Err(CorruptKind::TruncatedHeader);
        }
        let extra: usize = (input[pos] as usize) + 256 * (input[pos + 1] as usize);
        if input.len() - pos - 2 < extra {
            return Err(CorruptKind::TruncatedHeader);
        }
        pos = pos + 2 + extra;
    }
    if flags & FNAME != 0 {
        match read_text(input, pos) {
            Ok(end) => {
                pos = end;
            },
            Err(kind) => {
                return Err(kind);
            },
        }
    }
    if flags & FCOMMENT != 0 {
        match read_text(input, pos) {
            Ok(end) => {
                pos = end;
            },
            Err(kind) => {
                return Err(kind);
            },
        }
    }
    if flags & FHCRC != 0 {
        if input.len() - pos < 2 {
            return Err(CorruptKind::TruncatedHeader);
        }
        let stored: u32 = (input[pos] as u32) + 256 * (input[pos + 1] as u32);
        let sum: u32 = table.checksum(slice_subrange(input, 0, pos));
        if stored != sum & 0xffff {
            return Err(CorruptKind::HeaderChecksum);
        }
        pos = pos + 2;
    }
    Ok(pos)
}

/// Checks what the inflater made of a member against the member's trailer.
/// `input` starts at the member's first byte, `header_len` is the length of
/// its header, and `decoded` is the inflater's result for the bytes after
/// the header.
pub fn check_member(
    input: &[u8],
    header_len: usize,
    decoded: Option<(Vec<u8>, usize)>,
    table: &Crc32Table,
) -> (member: Result<(Vec<u8>, usize), (CorruptKind, usize)>)
    requires
        header_len <= input.len(),
        decoded matches Some((_, used)) ==> used <= input.len() - header_len,
    ensures
        match member {
            Ok((data, size)) => checked_member(input@, header_len as nat, decoded_view(decoded))
                == Ok::<(Seq<u8>, nat), (CorruptKind, nat)>((data@, size as nat)) && size
                <= input.len(),
            Err((kind, offset)) => checked_member(
                input@,
                header_len as nat,
                decoded_view(decoded),
            ) == Err::<(Seq<u8>, nat), (CorruptKind, nat)>((kind, offset as nat)) && offset
                <= input.len(),
        },
{
    match decoded {
        None => Err((CorruptKind::BadDeflate, header_len)),
        Some((data, used)) => {
            let at: usize = header_len + used;
            if input.len() - at < 8 {
                return Err((CorruptKind::TruncatedTrailer, at));
            }
            let crc: u32 = read_le32(input, at);
            let len: u32 = read_le32(input, at + 4);
            if crc != table.checksum(data.as_slice()) {
                return Err((CorruptKind::ChecksumMismatch, at));
            }
            if len as u64 != (data.len() as u64) % 0x1_0000_0000 {
                return Err((CorruptKind::LengthMismatch, at + 4));
            }
            Ok((data, at + 8))
        },
    }
}

/// Decodes the member at the front of `input`: the decoded bytes and the
/// member's length, or the fault and its offset from the member's start.
pub fn read_member(input: &[u8], table: &Crc32Table) -> (member: Result<
    (Vec<u8>, usize),
    (CorruptKind, usize),
>)
    ensures
        match member {
            Ok((data, size)) => decode_member(input@) == Ok::<
                (Seq<u8>, nat),
                (CorruptKind, nat),
            >((data@, size as nat)) && 18 <= size <= input.len(),
            Err((kind, offset)) => decode_member(input@) == Err::<
                (Seq<u8>, nat),
                (CorruptKind, nat),
            >((kind, offset as nat)) && offset <= input.len(),
        },
{
    let header_len = match read_header(input, table) {
        Ok(n) => n,
        Err(kind) => {
            return Err((kind, 0));
        },
    };
    let body = slice_subrange(input, header_len, input.len());
    let decoded = inflate_stream(body);
    check_member(input, header_len, decoded, table)
}

} // verus!
