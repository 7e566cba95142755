//! Decompression from end to end: one member after another until the input
//! ends.

use crate::bytes::append;
use crate::crc::Crc32Table;
use crate::error::Error;
use crate::member::{decode_member, read_member};
use vstd::prelude::*;
use vstd::slice::slice_subrange;

verus! {

/// `prefix` put in front of a decoded result.
pub open spec fn after(prefix: Seq<u8>, rest: Result<Seq<u8>, Error>) -> Result<Seq<u8>, Error> {
    match rest {
        Ok(bytes) => Ok(prefix + bytes),
        Err(e) => Err(e),
    }
}

/// What a stream of members decodes to. `input` starts at a member's first
/// byte; that member is number `member` of the whole stream and starts at
/// offset `base` in it. At least one member is required; after a member the
/// stream either ends or goes on with another member.
pub open spec fn decode_stream(input: Seq<u8>, member: nat, base: nat) -> Result<Seq<u8>, Error>
    decreases input.len(),
{
    match decode_member(input) {
        Err((kind, offset)) => Err(
            Error::Corrupt { kind, member: member as usize, offset: (base + offset) as usize },
        ),
        Ok((data, size)) => {
            if 0 < size < input.len() {
                after(data, decode_stream(input.skip(size as int), member + 1, base + size))
            } else {
                Ok(data)
            }
        },
    }
}

/// What `input` decodes to as a whole.
pub open spec fn decoded(input: Seq<u8>) -> Result<Seq<u8>, Error> {
    decode_stream(input, 0, 0)
}

/// The plain-value form of a result.
pub open spec fn result_view(out: Result<Vec<u8>, Error>) -> Result<Seq<u8>, Error> {
    match out {
        Ok(bytes) => Ok(bytes@),
        Err(e) => Err(e),
    }
}

/// Decompresses a stream of one or more gzip members. Every member's header
/// is checked, its deflate data inflated, and the result held against the
/// member's trailer; the first fault ends the run with its kind, the number
/// of the member and the offset in the input.
pub fn decompress(input: &[u8]) -> (out: Result<Vec<u8>, Error>)
    ensures
        result_view(out) == decoded(input@),
{
    let table = Crc32Table::new();
    let mut out: Vec<u8> = Vec::new();
    let mut pos: usize = 0;
    let mut member: usize = 0;
    proof {
        assert(input@.skip(0) =~= input@);
    }
    loop
        invariant
            pos <= input.len(),
            member <= pos,
            pos == 0 || pos < input.len(),
            decoded(input@) == after(
                out@,
                decode_stream(input@.skip(pos as int), member as nat, pos as nat),
            ),
        decreases input.len() - pos,
    {
        let rest = slice_subrange(input, pos, input.len());
        match read_member(rest, &table) {
            Err((kind, offset)) => {
                return Err(Error::Corrupt { kind, member, offset: pos + offset });
            },
            Ok((data, size)) => {
                let ghost before = out@;
                append(&mut out, data.as_slice());
                if size == rest.len() {
                    return Ok(out);
                }
                proof {
                    assert(input@.skip(pos as int).skip(size as int) =~= input@.skip(pos + size));
                    let tail = decode_stream(
                        input@.skip(pos + size),
                        (member + 1) as nat,
                        (pos + size) as nat,
                    );
                    if tail is Ok {
                        assert(before + (data@ + tail->Ok_0) =~= (before + data@) + tail->Ok_0);
                    }
                }
                pos = pos + size;
                member = member + 1;
            },
        }
    }
}

} // verus!
