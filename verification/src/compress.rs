//! Compression of a whole input: check the settings, then run the pipeline
//! over the input with the calling thread as its only worker.

use crate::block::{chunks, lemma_chunks_count, lemma_chunks_flatten};
use crate::bytes::append;
use crate::checksum::{lemma_folded_covers, low32};
use crate::codec::encoding;
use crate::config::{block_size_for, Config};
use crate::crc::{crc32, Crc32Table};
use crate::error::Error;
use crate::frame::{compress_block, header_bytes, member_of, payload_of, trailer_bytes};
use crate::pipeline::Pipeline;
use vstd::prelude::*;

verus! {

/// The gzip stream for `input` at `level` with blocks of `block_size` bytes:
/// the header, the deflate data of every block in input order with only the
/// last one finished, and the checksum and length of the whole input.
pub open spec fn encoded(input: Seq<u8>, level: u32, block_size: nat) -> Seq<u8> {
    header_bytes(level) + payload_of(chunks(input, block_size), level, true) + trailer_bytes(
        crc32(input),
        low32(input.len() as int),
    )
}

/// Whether the encoder succeeds on every block of `input`: each block but the
/// last is encoded unfinished, the last one finished.
pub open spec fn encodable(input: Seq<u8>, level: u32, block_size: nat) -> bool {
    forall|i: int|
        0 <= i < chunks(input, block_size).len() ==> encoding(
            #[trigger] chunks(input, block_size)[i],
            level,
            i == chunks(input, block_size).len() - 1,
        ) is Some
}

/// Framing the blocks of `input` gives `encoded`: the sums folded block by
/// block are the checksum and length of the whole input.
pub proof fn lemma_member_of_chunks(input: Seq<u8>, level: u32, block_size: nat)
    ensures
        member_of(chunks(input, block_size), level) == encoded(input, level, block_size),
{
    lemma_folded_covers(chunks(input, block_size));
    lemma_chunks_flatten(input, block_size);
}

/// Compresses `input` with the settings in `config`. The run is that of the
/// pipeline with a single worker that is given each block in turn, here on
/// the calling thread. It succeeds exactly when the encoder succeeds on every
/// block; if it fails on one, the run ends with a worker fault.
pub fn compress_with(input: &[u8], config: &Config) -> (out: Result<Vec<u8>, Error>)
    ensures
        out is Ok <==> encodable(input@, config.level_spec(), config.block_size_spec() as nat),
        match out {
            Ok(bytes) => bytes@ == encoded(
                input@,
                config.level_spec(),
                config.block_size_spec() as nat,
            ),
            Err(e) => e == Error::Worker,
        },
{
    let level = config.level();
    let table = Crc32Table::new();
    let (mut pipeline, mut out) = Pipeline::new(config);
    proof {
        assert(input@.len() == input.len());
        assert(pipeline.takes(input@.len()));
    }
    match pipeline.offer(input) {
        Ok(_) => {},
        Err(_) => {
            return Err(Error::Worker);
        },
    }
    match pipeline.end_input() {
        Ok(_) => {},
        Err(_) => {
            return Err(Error::Worker);
        },
    }
    proof {
        pipeline.lemma_written();
        lemma_chunks_count(input@, pipeline.block_size());
    }
    loop
        invariant
            pipeline.parts() == chunks(input@, config.block_size_spec() as nat),
            pipeline.parts().len() <= u64::MAX,
            pipeline.flushed() <= pipeline.parts().len(),
            forall|j: int|
                0 <= j < pipeline.flushed() ==> encoding(
                    #[trigger] pipeline.parts()[j],
                    level,
                    j == pipeline.parts().len() - 1,
                ) is Some,
            pipeline.wf(),
            pipeline.level() == level,
            pipeline.level() == config.level_spec(),
            pipeline.block_size() == config.block_size_spec(),
            pipeline.seen() == input@,
            pipeline.input_ended(),
            !pipeline.finished(),
            pipeline.failure() is None,
            pipeline.submitted() == pipeline.flushed(),
            out@ == pipeline.written(),
            forall|j: int|
                0 <= j < pipeline.results().len() ==> (#[trigger] pipeline.results()[j]).seals(
                    pipeline.parts()[j],
                    level,
                ),
        ensures
            pipeline.queued() == 0,
        decreases pipeline.queued(),
    {
        let ghost before = pipeline;
        proof {
            pipeline.lemma_written();
        }
        let job = match pipeline.next_job() {
            Some(job) => job,
            None => {
                break ;
            },
        };
        let made = match compress_block(&job, level, &table) {
            Ok(made) => made,
            Err(_) => {
                proof {
                    pipeline.lemma_written();
                    assert(encoding(
                        pipeline.parts()[job.index as int],
                        level,
                        job.index as int == pipeline.parts().len() - 1,
                    ) is None);
                }
                return Err(Error::Worker);
            },
        };
        let ghost sent = pipeline;
        proof {
            sent.lemma_written();
        }
        match pipeline.complete(Ok(made)) {
            Ok(bytes) => {
                append(&mut out, bytes.as_slice());
            },
            Err(_) => {
                return Err(Error::Worker);
            },
        }
        proof {
            pipeline.lemma_written();
            let inserted = sent.arrived(made);
            assert forall|j: int| 0 <= j < pipeline.results().len() implies (
            #[trigger] pipeline.results()[j]).seals(pipeline.parts()[j], level) by {
                if j < sent.flushed() {
                    assert(pipeline.results().take(sent.flushed() as int)[j]
                        == before.results()[j]);
                } else {
                    assert(inserted.contains_key(j));
                }
            }
        }
    }
    proof {
        pipeline.lemma_written();
    }
    match pipeline.finish() {
        Ok(trailer) => {
            append(&mut out, trailer.as_slice());
            proof {
                pipeline.lemma_run_is_encoded();
            }
            Ok(out)
        },
        Err(_) => Err(Error::Worker),
    }
}

/// Compresses `input` at `level`. The settings are checked before the input
/// is looked at: a level above 9 is refused first, then a thread count of
/// zero. The block size is the one that goes with the level; `threads` only
/// has to be a count that a pool could be made with, the blocks themselves
/// are compressed in turn. With valid settings the call succeeds exactly when
/// the encoder succeeds on every block.
pub fn compress(input: &[u8], level: u32, threads: usize) -> (out: Result<Vec<u8>, Error>)
    ensures
        level > 9 ==> (out matches Err(e) && e == (Error::InvalidLevel { level })),
        level <= 9 && threads == 0 ==> (out matches Err(e) && e == Error::InvalidThreads),
        level <= 9 && threads > 0 ==> (out is Ok <==> encodable(
            input@,
            level,
            block_size_for(level),
        )),
        level <= 9 && threads > 0 ==> match out {
            Ok(bytes) => bytes@ == encoded(input@, level, block_size_for(level)),
            Err(e) => e == Error::Worker,
        },
{
    match Config::new(level, threads) {
        Ok(config) => compress_with(input, &config),
        Err(e) => Err(e),
    }
}

} // verus!
