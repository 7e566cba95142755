//! The failures a run can end with, and how the caller tells them apart.

use vstd::prelude::*;

verus! {

/// What was wrong with a gzip member that could not be decoded.
#[derive(Clone, Copy, Debug, PartialEq, Eq, Structural)]
pub enum CorruptKind {
    /// The input ended inside a member header.
    TruncatedHeader,
    /// The first two bytes are not `1f 8b`.
    BadMagic,
    /// The compression method is not 8 (deflate).
    UnsupportedMethod,
    /// One of the three reserved flag bits is set.
    ReservedFlags,
    /// A file name or comment runs past the longest length accepted.
    FieldTooLong,
    /// The header's own checksum does not match its bytes.
    HeaderChecksum,
    /// The deflate data is malformed or ends early.
    BadDeflate,
    /// Fewer than eight bytes follow the deflate data.
    TruncatedTrailer,
    /// The trailer's CRC-32 is not that of the decoded bytes.
    ChecksumMismatch,
    /// The trailer's length is not that of the decoded bytes, modulo 2^32.
    LengthMismatch,
}

/// The classes of failure, as a caller reports them.
#[derive(Clone, Copy, Debug, PartialEq, Eq, Structural)]
pub enum Category {
    Configuration,
    Io,
    BrokenDownstream,
    CorruptInput,
    WorkerFault,
    Misuse,
}

/// Why a run failed.
#[derive(Clone, Copy, Debug, PartialEq, Eq, Structural)]
pub enum Error {
    /// The compression level is above 9.
    InvalidLevel { level: u32 },
    /// The thread count is zero.
    InvalidThreads,
    /// The block size is zero.
    InvalidBlockSize,
    /// Reading the source or writing the sink failed.
    Io,
    /// The sink's consumer has gone away.
    BrokenPipe,
    /// The input is not a well-formed gzip stream. `member` counts members
    /// from zero; `offset` is the position in the whole input of the part
    /// that failed.
    Corrupt { kind: CorruptKind, member: usize, offset: usize },
    /// The deflate engine failed on a block.
    Worker,
    /// An operation was asked of a framer or a scheduler in a state that
    /// does not allow it.
    InvalidState,
}

impl Error {
    /// The class this failure belongs to.
    pub open spec fn class(self) -> Category {
        match self {
            Error::InvalidLevel { .. } => Category::Configuration,
            Error::InvalidThreads => Category::Configuration,
            Error::InvalidBlockSize => Category::Configuration,
            Error::Io => Category::Io,
            Error::BrokenPipe => Category::BrokenDownstream,
            Error::Corrupt { .. } => Category::CorruptInput,
            Error::Worker => Category::WorkerFault,
            Error::InvalidState => Category::Misuse,
        }
    }

    /// The class this failure belongs to.
    pub fn category(&self) -> (c: Category)
        ensures
            c == self.class(),
    {
        match self {
            Error::InvalidLevel { .. } => Category::Configuration,
            Error::InvalidThreads => Category::Configuration,
            Error::InvalidBlockSize => Category::Configuration,
            Error::Io => Category::Io,
            Error::BrokenPipe => Category::BrokenDownstream,
            Error::Corrupt { .. } => Category::CorruptInput,
            Error::Worker => Category::WorkerFault,
            Error::InvalidState => Category::Misuse,
        }
    }

    /// The text of the message for this failure.
    pub open spec fn text(self) -> Seq<char> {
        match self {
            Error::InvalidLevel { .. } => "Invalid compression level"@,
            Error::InvalidThreads => "Invalid number of threads"@,
            Error::InvalidBlockSize => "Invalid block size"@,
            Error::Io => "I/O failure"@,
            Error::BrokenPipe => "Broken pipe"@,
            Error::Corrupt { kind, .. } => match kind {
                CorruptKind::TruncatedHeader => "truncated gzip header"@,
                CorruptKind::BadMagic => "invalid gzip header"@,
                CorruptKind::UnsupportedMethod => "unsupported compression method"@,
                CorruptKind::ReservedFlags => "reserved gzip flags set"@,
                CorruptKind::FieldTooLong => "gzip header field too long"@,
                CorruptKind::HeaderChecksum => "gzip header checksum mismatch"@,
                CorruptKind::BadDeflate => "corrupt deflate stream"@,
                CorruptKind::TruncatedTrailer => "truncated gzip trailer"@,
                CorruptKind::ChecksumMismatch => "corrupt gzip stream does not have a matching checksum"@,
                CorruptKind::LengthMismatch => "corrupt gzip stream does not have a matching length"@,
            },
            Error::Worker => "compression worker failed"@,
            Error::InvalidState => "operation not allowed in this state"@,
        }
    }

    /// A short message for this failure.
    pub fn message(&self) -> (s: &'static str)
        ensures
            s@ == self.text(),
    {
        match self {
            Error::InvalidLevel { .. } => "Invalid compression level",
            Error::InvalidThreads => "Invalid number of threads",
            Error::InvalidBlockSize => "Invalid block size",
            Error::Io => "I/O failure",
            Error::BrokenPipe => "Broken pipe",
            Error::Corrupt { kind, .. } => match kind {
                CorruptKind::TruncatedHeader => "truncated gzip header",
                CorruptKind::BadMagic => "invalid gzip header",
                CorruptKind::UnsupportedMethod => "unsupported compression method",
                CorruptKind::ReservedFlags => "reserved gzip flags set",
                CorruptKind::FieldTooLong => "gzip header field too long",
                CorruptKind::HeaderChecksum => "gzip header checksum mismatch",
                CorruptKind::BadDeflate => "corrupt deflate stream",
                CorruptKind::TruncatedTrailer => "truncated gzip trailer",
                CorruptKind::ChecksumMismatch => "corrupt gzip stream does not have a matching checksum",
                CorruptKind::LengthMismatch => "corrupt gzip stream does not have a matching length",
            },
            Error::Worker => "compression worker failed",
            Error::InvalidState => "operation not allowed in this state",
        }
    }
}

/// Whether `err` says that the sink's consumer has gone away.
pub fn is_broken_pipe(err: &Error) -> (broken: bool)
    ensures
        broken == (*err == Error::BrokenPipe),
{
    match err {
        Error::BrokenPipe => true,
        _ => false,
    }
}

/// How a run that ended with `outcome` is reported.
pub open spec fn settled(outcome: Result<(), Error>) -> Result<(), Error> {
    match outcome {
        Err(Error::BrokenPipe) => Ok(()),
        _ => outcome,
    }
}

/// Turns the outcome of a run into what the caller reports: a broken pipe is
/// a quiet end, every other outcome stands as it is.
pub fn settle(outcome: Result<(), Error>) -> (reported: Result<(), Error>)
    ensures
        reported == settled(outcome),
{
    match outcome {
        Ok(_) => outcome,
        Err(err) => {
            if is_broken_pipe(&err) {
                Ok(())
            } else {
                outcome
            }
        },
    }
}

} // verus!
