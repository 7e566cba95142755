//! The deflate engine. The bit-level coding is done by `gzp` and `flate2`;
//! this module gives their results names that the rest of the crate states
//! its contracts over.

use gzp::FormatSpec;
use vstd::prelude::*;

verus! {

/// `gzp::GzpError`, the failure of `gzp`'s encoder. It is only carried from
/// the call to the place that turns it into this crate's own error.
#[verifier::external_type_specification]
#[verifier::external_body]
pub struct ExGzpError(gzp::GzpError);

/// `std::io::Error`, which `flate2`'s reading decoder fails with. It is only
/// carried from the call to the place that turns it into this crate's own
/// error.
#[verifier::external_type_specification]
#[verifier::external_body]
pub struct ExIoError(std::io::Error);

/// `flate2::Decompress`, the streaming inflater. Its state cannot be looked
/// into; the decoder holds one and hands it to the calls below.
#[verifier::external_type_specification]
#[verifier::external_body]
pub struct ExDecompress(flate2::Decompress);

/// `flate2::DecompressError`, the failure of the streaming inflater. It is
/// only carried from the call to the place that reports corrupt input.
#[verifier::external_type_specification]
#[verifier::external_body]
pub struct ExDecompressError(flate2::DecompressError);

/// What one run of the streaming inflater reports.
#[derive(Clone, Copy, Debug, PartialEq, Eq, Structural)]
pub enum Progress {
    /// The run went well; there may be more to do.
    More,
    /// Nothing could be done: no input to read or no room to write.
    Stalled,
    /// The deflate stream has ended.
    End,
}

/// What `gzp`'s gzip format makes of `data` at `level`: the raw deflate data,
/// finished when `last` and sync-flushed otherwise, or `None` where it fails.
pub uninterp spec fn encoding(data: Seq<u8>, level: u32, last: bool) -> Option<Seq<u8>>;

/// What `flate2`'s raw inflater makes of the deflate stream at the front of
/// `input`: the decoded bytes and how many bytes of `input` the stream took,
/// or `None` when the stream is malformed or ends early.
pub uninterp spec fn inflated(input: Seq<u8>) -> Option<(Seq<u8>, nat)>;

/// Calls `gzp::deflate::Gzip::encode` with a fresh compressor at `level`.
/// The contract names what comes back, the bytes or the failure. It does not
/// say on which inputs the call succeeds: that is left to the engine.
#[verifier::external_body]
pub(crate) fn gzip_encode(data: &[u8], level: u32, last: bool) -> (encoded: Result<Vec<u8>, gzp::GzpError>)
    requires
        level <= 9,
    ensures
        match encoded {
            Ok(bytes) => encoding(data@, level, last) == Some(bytes@),
            Err(_) => encoding(data@, level, last) is None,
        },
{
    let format = gzp::deflate::Gzip::new();
    let setting = gzp::Compression::new(level);
    let mut engine = format.create_compressor(setting)?;
    format.encode(data, &mut engine, setting, None, last)
}

/// Reads `flate2::bufread::DeflateDecoder` over `input` to its end. On
/// success the contract names the decoded bytes and the count of input bytes
/// the decoder reports as consumed, which cannot exceed what it was given; a
/// failure of the decoder is the name's `None`.
#[verifier::external_body]
pub(crate) fn inflate_front(input: &[u8]) -> (decoded: Result<(Vec<u8>, usize), std::io::Error>)
    ensures
        match decoded {
            Ok((bytes, used)) => inflated(input@) == Some((bytes@, used as nat)) && used
                <= input.len(),
            Err(_) => inflated(input@) is None,
        },
{
    let mut decoder = flate2::bufread::DeflateDecoder::new(input);
    let mut bytes = Vec::new();
    std::io::Read::read_to_end(&mut decoder, &mut bytes)?;
    Ok((bytes, decoder.total_in() as usize))
}

/// Calls `flate2::Decompress::new(false)`: a fresh inflater for raw deflate
/// data. Nothing is claimed of it.
#[verifier::external_body]
pub(crate) fn inflater_new() -> (engine: flate2::Decompress) {
    flate2::Decompress::new(false)
}

/// Calls `flate2::Decompress::total_in`. Nothing is claimed of the count;
/// the caller checks it before it relies on it.
#[verifier::external_body]
pub(crate) fn inflater_total_in(engine: &flate2::Decompress) -> (total: u64) {
    engine.total_in()
}

/// Calls `flate2::Decompress::decompress_vec` without a flush. Whatever the
/// outcome, the call only writes into the spare room of `out`: what `out`
/// held before is still at its front.
#[verifier::external_body]
pub(crate) fn inflater_run(engine: &mut flate2::Decompress, input: &[u8], out: &mut Vec<u8>) -> (status:
    Result<Progress, flate2::DecompressError>)
    ensures
        old(out)@.len() <= final(out)@.len(),
        final(out)@.subrange(0, old(out)@.len() as int) == old(out)@,
{
    match engine.decompress_vec(input, out, flate2::FlushDecompress::None)? {
        flate2::Status::Ok => Ok(Progress::More),
        flate2::Status::BufError => Ok(Progress::Stalled),
        flate2::Status::StreamEnd => Ok(Progress::End),
    }
}

/// Deflates one block, reporting an engine failure as `None`.
pub fn deflate_block(data: &[u8], level: u32, last: bool) -> (payload: Option<Vec<u8>>)
    requires
        level <= 9,
    ensures
        match payload {
            Some(bytes) => encoding(data@, level, last) == Some(bytes@) && bytes@ == deflated(
                data@,
                level,
                last,
            ),
            None => encoding(data@, level, last) is None,
        },
{
    match gzip_encode(data, level, last) {
        Ok(bytes) => Some(bytes),
        Err(_) => None,
    }
}

/// The deflate data of a block: what the encoder makes of it. Where the
/// encoder fails there is no such data, and this is the empty sequence.
pub open spec fn deflated(data: Seq<u8>, level: u32, last: bool) -> Seq<u8> {
    match encoding(data, level, last) {
        Some(bytes) => bytes,
        None => Seq::empty(),
    }
}

/// Inflates the deflate stream at the front of `input`.
pub fn inflate_stream(input: &[u8]) -> (decoded: Option<(Vec<u8>, usize)>)
    ensures
        match decoded {
            Some((bytes, used)) => inflated(input@) == Some((bytes@, used as nat)) && used
                <= input.len(),
            None => inflated(input@) is None,
        },
{
    match inflate_front(input) {
        Ok(pair) => Some(pair),
        Err(_) => None,
    }
}

} // verus!
