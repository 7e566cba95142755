//! What a run is set up with: the compression level, the number of worker
//! threads, and the block size that follows from the level.

use crate::error::Error;
use vstd::prelude::*;

verus! {

/// The highest compression level.
pub const MAX_LEVEL: u32 = 9;

/// The level used when none is asked for.
pub const DEFAULT_LEVEL: u32 = 3;

/// Block size at levels 0 to 3: 128 KiB.
pub const SMALL_BLOCK: usize = 131072;

/// Block size at levels 4 to 6: 256 KiB.
pub const MEDIUM_BLOCK: usize = 262144;

/// Block size at levels 7 to 9: 512 KiB.
pub const LARGE_BLOCK: usize = 524288;

/// The most blocks that are ever in flight at once.
pub const MAX_IN_FLIGHT: usize = 1024;

/// The block size used at `level`, unless the caller sets another. Higher
/// levels spend more time on each block, so they are given bigger blocks,
/// which compress better; lower levels keep blocks small so that more of
/// them are in work at once.
pub open spec fn block_size_for(level: u32) -> nat {
    if level <= 3 {
        131072
    } else if level <= 6 {
        262144
    } else {
        524288
    }
}

/// The most blocks that may be submitted and not yet flushed with `threads`
/// workers: two for each worker, so that a worker that is done finds the
/// next block waiting, but never more than `MAX_IN_FLIGHT`, so that the
/// memory a run holds stays bounded whatever the thread count.
pub open spec fn in_flight_limit_for(threads: usize) -> nat {
    if 2 * threads <= 1024 {
        (2 * threads) as nat
    } else {
        1024
    }
}

/// Accepts the levels 0 to 9.
pub fn check_level(level: u32) -> (checked: Result<(), Error>)
    ensures
        checked is Ok <==> level <= 9,
        checked matches Err(e) ==> e == (Error::InvalidLevel { level }),
{
    if level > MAX_LEVEL {
        Err(Error::InvalidLevel { level })
    } else {
        Ok(())
    }
}

/// Accepts every thread count but zero.
pub fn check_threads(threads: usize) -> (checked: Result<(), Error>)
    ensures
        checked is Ok <==> threads > 0,
        checked matches Err(e) ==> e == Error::InvalidThreads,
{
    if threads == 0 {
        Err(Error::InvalidThreads)
    } else {
        Ok(())
    }
}

/// The block size used at `level`.
pub fn default_block_size(level: u32) -> (size: usize)
    ensures
        size == block_size_for(level),
        size > 0,
{
    if level <= 3 {
        SMALL_BLOCK
    } else if level <= 6 {
        MEDIUM_BLOCK
    } else {
        LARGE_BLOCK
    }
}

/// The settings of one run, checked.
#[derive(Clone, Copy, Debug)]
pub struct Config {
    level: u32,
    threads: usize,
    block_size: usize,
}

impl Config {
    #[verifier::type_invariant]
    spec fn valid(self) -> bool {
        &&& self.level <= 9
        &&& self.threads > 0
        &&& self.block_size > 0
    }

    /// The compression level, 0 to 9.
    pub closed spec fn level_spec(self) -> u32 {
        self.level
    }

    /// The number of worker threads, at least one.
    pub closed spec fn threads_spec(self) -> usize {
        self.threads
    }

    /// The size of every block but the last, at least one.
    pub closed spec fn block_size_spec(self) -> usize {
        self.block_size
    }

    /// Checks `level` and `threads`, the level first, and picks the block
    /// size for the level.
    pub fn new(level: u32, threads: usize) -> (made: Result<Config, Error>)
        ensures
            level > 9 ==> made == Err::<Config, Error>(Error::InvalidLevel { level }),
            level <= 9 && threads == 0 ==> made == Err::<Config, Error>(Error::InvalidThreads),
            level <= 9 && threads > 0 ==> made is Ok,
            made matches Ok(c) ==> c.level_spec() == level && c.threads_spec() == threads
                && c.block_size_spec() == block_size_for(level),
    {
        if level > MAX_LEVEL {
            return Err(Error::InvalidLevel { level });
        }
        if threads == 0 {
            return Err(Error::InvalidThreads);
        }
        Ok(Config { level, threads, block_size: default_block_size(level) })
    }

    /// The same settings with another block size; a size of zero is refused.
    pub fn with_block_size(self, block_size: usize) -> (made: Result<Config, Error>)
        ensures
            block_size == 0 ==> made == Err::<Config, Error>(Error::InvalidBlockSize),
            block_size > 0 ==> made is Ok,
            made matches Ok(c) ==> c.level_spec() == self.level_spec() && c.threads_spec()
                == self.threads_spec() && c.block_size_spec() == block_size,
    {
        proof {
            use_type_invariant(&self);
        }
        if block_size == 0 {
            return Err(Error::InvalidBlockSize);
        }
        Ok(Config { level: self.level, threads: self.threads, block_size })
    }

    /// The compression level.
    pub fn level(&self) -> (level: u32)
        ensures
            level == self.level_spec(),
            level <= 9,
    {
        proof {
            use_type_invariant(self);
        }
        self.level
    }

    /// The number of worker threads.
    pub fn threads(&self) -> (threads: usize)
        ensures
            threads == self.threads_spec(),
            threads > 0,
    {
        proof {
            use_type_invariant(self);
        }
        self.threads
    }

    /// The size of every block but the last.
    pub fn block_size(&self) -> (size: usize)
        ensures
            size == self.block_size_spec(),
            size > 0,
    {
        proof {
            use_type_invariant(self);
        }
        self.block_size
    }

    /// The most blocks that may be in flight at once.
    pub fn in_flight_limit(&self) -> (limit: usize)
        ensures
            limit == in_flight_limit_for(self.threads_spec()),
            limit > 0,
    {
        proof {
            use_type_invariant(self);
        }
        if self.threads <= MAX_IN_FLIGHT / 2 {
            2 * self.threads
        } else {
            MAX_IN_FLIGHT
        }
    }
}

} // verus!
