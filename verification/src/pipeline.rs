//! A compression run, from the first byte of input to the trailer.
//!
//! The pipeline makes every decision of the run: how the input is cut, which
//! block goes to a worker next, when the input has to wait for a free slot,
//! and which bytes go to the sink. The caller does the rest: it reads the
//! input, lets workers compress the blocks in any order it likes, and writes
//! what the pipeline hands out.

use crate::block::{chunks, Block, Splitter};
use crate::bytes::append;
use crate::config::Config;
use crate::error::Error;
use crate::frame::{
    framed, header_bytes, payloads, sums, trailer_bytes, well_ordered, CompressedBlock, Framer,
    FramerState,
};
use crate::scheduler::{Scheduler, Submission};
use vstd::prelude::*;

verus! {

/// What the caller of a pipeline does next.
#[derive(Clone, Copy, Debug, PartialEq, Eq, Structural)]
pub enum NextStep {
    /// Take the next job and hand it to a worker.
    Dispatch,
    /// Read more input and offer it, or announce the end of the input.
    Read,
    /// Wait for a worker and hand its result in.
    Wait,
    /// Every block is flushed: ask for the trailer.
    Finish,
    /// The trailer is out; nothing is left to do.
    Done,
    /// The run cannot go on: it has failed, or no index is left for a block.
    GiveUp,
}

/// The state of one compression run.
pub struct Pipeline {
    level: u32,
    block_size: usize,
    splitter: Option<Splitter>,
    scheduler: Scheduler,
    framer: Framer,
    backlog: Vec<Block>,
    finished: bool,
    parts: Ghost<Seq<Seq<u8>>>,
    seen: Ghost<Seq<u8>>,
    results: Ghost<Seq<CompressedBlock>>,
    written: Ghost<Seq<u8>>,
}

impl Pipeline {
    /// The compression level of the run.
    pub closed spec fn level(&self) -> u32 {
        self.level
    }

    /// The size of every block but the last.
    pub closed spec fn block_size(&self) -> nat {
        self.block_size as nat
    }

    /// All the input taken in so far.
    pub closed spec fn seen(&self) -> Seq<u8> {
        self.seen@
    }

    /// The contents of the blocks cut so far, in stream order.
    pub closed spec fn parts(&self) -> Seq<Seq<u8>> {
        self.parts@
    }

    /// All the bytes handed out for the sink so far.
    pub closed spec fn written(&self) -> Seq<u8> {
        self.written@
    }

    /// Whether the end of the input has been announced.
    pub closed spec fn input_ended(&self) -> bool {
        self.splitter is None
    }

    /// Whether the trailer has been handed out.
    pub closed spec fn finished(&self) -> bool {
        self.finished
    }

    /// How many blocks have been handed out as jobs.
    pub closed spec fn submitted(&self) -> nat {
        self.scheduler.submitted()
    }

    /// How many blocks have had their deflate data handed out for the sink.
    pub closed spec fn flushed(&self) -> nat {
        self.scheduler.flushed()
    }

    /// The most blocks that may be out as jobs and not yet flushed.
    pub closed spec fn capacity(&self) -> nat {
        self.scheduler.capacity()
    }

    /// How many blocks are cut and not yet handed out as jobs.
    pub closed spec fn queued(&self) -> nat {
        self.backlog@.len()
    }

    /// The failure that the run was given up for, if it was.
    pub closed spec fn failure(&self) -> Option<Error> {
        self.scheduler.failure()
    }

    /// Whether the result for the block with `index` is still to come.
    pub closed spec fn awaits(&self, index: u64) -> bool {
        &&& self.scheduler.failure() is None
        &&& self.scheduler.flushed() <= index < self.scheduler.submitted()
        &&& !self.scheduler.waiting().contains_key(index as int)
    }

    /// The results that have been flushed, in stream order.
    pub closed spec fn results(&self) -> Seq<CompressedBlock> {
        self.results@
    }

    /// The results that have come in and wait to be flushed, by index.
    pub closed spec fn held(&self) -> Map<int, CompressedBlock> {
        self.scheduler.waiting()
    }

    /// Whether the block with `index` ends the stream.
    pub open spec fn is_final(&self, index: int) -> bool {
        self.input_ended() && index == self.parts().len() - 1
    }

    /// The results on hand once `block` has come in: those that wait, and
    /// `block` under its index.
    pub open spec fn arrived(&self, block: CompressedBlock) -> Map<int, CompressedBlock> {
        self.held().insert(block.index as int, block)
    }

    /// Whether the result `block` is taken in: the result for its index must
    /// still be to come, and it must be marked as the end of the stream
    /// exactly if the block of its index is.
    pub open spec fn takes_result(&self, block: CompressedBlock) -> bool {
        &&& self.awaits(block.index)
        &&& block.last == self.is_final(block.index as int)
    }

    spec fn queue_ok(&self) -> bool {
        &&& self.scheduler.submitted() + self.backlog@.len() == self.parts@.len()
        &&& forall|i: int|
            0 <= i < self.backlog@.len() ==> {
                &&& (#[trigger] self.backlog@[i]).index == self.scheduler.submitted() + i
                &&& self.backlog@[i].data@ == self.parts@[self.scheduler.submitted() + i]
                &&& self.backlog@[i].last == self.is_final(self.scheduler.submitted() + i)
            }
    }

    spec fn results_ok(&self) -> bool {
        forall|i: int| #[trigger]
            self.scheduler.waiting().contains_key(i) ==> {
                &&& self.scheduler.waiting()[i].index == i
                &&& self.scheduler.waiting()[i].last == self.is_final(i)
            }
    }

    spec fn framer_ok(&self) -> bool {
        &&& self.framer.level() == self.level
        &&& self.framer.next_index() == self.scheduler.flushed()
        &&& self.framer.ended() == self.is_final(self.scheduler.flushed() - 1)
        &&& self.results@.len() == self.scheduler.flushed()
        &&& forall|j: int|
            0 <= j < self.results@.len() ==> (#[trigger] self.results@[j]).index == j
                && self.results@[j].last == self.is_final(j)
        &&& self.framer.sums() == sums(self.results@)
        &&& !self.finished ==> self.framer.state() == (if self.scheduler.flushed() == 0 {
            FramerState::HeaderWritten
        } else {
            FramerState::BlockWritten
        }) && self.written@ == header_bytes(self.level) + payloads(self.results@)
        &&& self.finished ==> self.input_ended() && self.scheduler.flushed() == self.parts@.len()
            && self.written@ == framed(self.level, self.results@)
    }

    /// The invariant of a pipeline.
    pub closed spec fn wf(&self) -> bool {
        &&& self.level <= 9
        &&& self.block_size > 0
        &&& self.scheduler.wf()
        &&& self.scheduler.flushed() <= self.scheduler.submitted() <= self.parts@.len()
        &&& match self.splitter {
            Some(splitter) => splitter.wf() && splitter.block_size() == self.block_size
                && splitter.seen() == self.seen@ && splitter.emitted() == self.parts@,
            None => self.parts@ == chunks(self.seen@, self.block_size as nat),
        }
        &&& self.queue_ok()
        &&& self.results_ok()
        &&& self.framer_ok()
    }

    /// What the invariant says of the run. The blocks out with workers are
    /// within the limit. The bytes written are always the header followed by
    /// the deflate data of the results flushed, and those are the results
    /// of the first blocks in stream order, none left out and none twice;
    /// once the trailer is out they are a whole stream, framed.
    pub proof fn lemma_written(&self)
        requires
            self.wf(),
        ensures
            self.level() <= 9,
            self.block_size() > 0,
            self.capacity() > 0,
            self.flushed() <= self.submitted() <= self.parts().len(),
            self.submitted() + self.queued() == self.parts().len(),
            self.submitted() - self.flushed() <= self.capacity(),
            self.input_ended() ==> self.parts() == chunks(self.seen(), self.block_size()),
            self.results().len() == self.flushed(),
            forall|j: int|
                0 <= j < self.results().len() ==> (#[trigger] self.results()[j]).index == j
                    && self.results()[j].last == self.is_final(j),
            forall|i: int| #[trigger]
                self.held().contains_key(i) ==> self.flushed() <= i < self.submitted()
                    && self.held()[i].index == i,
            forall|i: u64| self.awaits(i) ==> self.flushed() <= i < self.submitted(),
            !self.finished() ==> self.written() == header_bytes(self.level()) + payloads(
                self.results(),
            ),
            self.finished() ==> self.input_ended() && self.results().len() == self.parts().len()
                && well_ordered(self.results()) && self.written() == framed(
                self.level(),
                self.results(),
            ),
    {
        self.scheduler.lemma_bounds();
        if self.finished {
            crate::block::lemma_chunks_sizes(self.seen@, self.block_size as nat);
        }
    }

    /// Order and content of a whole run: once the trailer is out, and given
    /// that every result was made from the block of its index at the level
    /// of the run, everything written is the compressed stream for the
    /// input, whatever order the results came in.
    pub proof fn lemma_run_is_encoded(&self)
        requires
            self.wf(),
            self.finished(),
            forall|j: int|
                0 <= j < self.results().len() ==> (#[trigger] self.results()[j]).seals(
                    self.parts()[j],
                    self.level(),
                ),
        ensures
            self.written() == crate::compress::encoded(
                self.seen(),
                self.level(),
                self.block_size(),
            ),
    {
        self.lemma_written();
        crate::laws::lemma_framed_is_encoded(
            self.results@,
            self.seen@,
            self.level,
            self.block_size as nat,
        );
    }

    /// What the caller does next. Queued blocks go out before more input is
    /// read, so input is read only while no block waits for a slot; when the
    /// slots are taken the caller waits for a result.
    pub open spec fn step_spec(&self) -> NextStep {
        if self.failure() is Some {
            NextStep::GiveUp
        } else if self.finished() {
            NextStep::Done
        } else if self.queued() > 0 {
            if self.submitted() - self.flushed() < self.capacity() && self.submitted()
                < u64::MAX {
                NextStep::Dispatch
            } else if self.submitted() > self.flushed() {
                NextStep::Wait
            } else {
                NextStep::GiveUp
            }
        } else if !self.input_ended() {
            NextStep::Read
        } else if self.submitted() > self.flushed() {
            NextStep::Wait
        } else {
            NextStep::Finish
        }
    }

    /// How many bytes of the input have been taken in and are not yet
    /// flushed: the bytes of the blocks that are queued or out with workers
    /// or waiting for their turn, and those held back for the next block.
    pub open spec fn unflushed(&self) -> int {
        self.seen().len() - self.parts().take(self.flushed() as int).flatten().len()
    }

    /// The bound on the input held: at most one block's worth of bytes for
    /// each block that is queued or in flight, and one more. Where the
    /// caller is told to read, no block is queued, so what is held is within
    /// the in-flight limit and one, times the block size, whatever the
    /// length of the input; what is then offered adds its own length.
    pub proof fn lemma_bytes_held(&self)
        requires
            self.wf(),
        ensures
            0 <= self.unflushed() <= (self.submitted() - self.flushed() + self.queued() + 1)
                * self.block_size(),
            self.step_spec() == NextStep::Read ==> self.unflushed() <= (self.capacity() + 1)
                * self.block_size(),
            self.step_spec() == NextStep::Finish <==> self.complete_but_for_trailer(),
            self.step_spec() == NextStep::Dispatch ==> self.queued() > 0,
    {
        self.scheduler.lemma_bounds();
        let size = self.block_size as nat;
        let all = chunks(self.seen@, size);
        let parts = self.parts@;
        let flushed = self.scheduler.flushed() as int;
        crate::block::lemma_chunks_flatten(self.seen@, size);
        crate::block::lemma_chunks_sizes(self.seen@, size);
        match self.splitter {
            Some(splitter) => {
                splitter.lemma_emitted_are_chunks();
            },
            None => {},
        }
        assert(all.take(flushed) =~= parts.take(flushed));
        let rest = all.skip(flushed);
        assert(all =~= all.take(flushed) + rest);
        vstd::seq_lib::lemma_flatten_concat(all.take(flushed), rest);
        rest.lemma_flatten_and_flatten_alt_are_equivalent();
        rest.lemma_flatten_length_le_mul(size as int);
        let held = self.submitted() - self.flushed() + self.queued() + 1;
        assert(rest.len() * size <= held * size) by (nonlinear_arith)
            requires
                rest.len() <= held,
        ;
        let room = self.capacity() + 1;
        if self.step_spec() == NextStep::Read {
            assert(held * size <= room * size) by (nonlinear_arith)
                requires
                    held <= room,
            ;
        }
    }

    /// What the caller does next.
    pub fn next_step(&self) -> (step: NextStep)
        requires
            self.wf(),
        ensures
            step == self.step_spec(),
    {
        if self.scheduler.first_failure().is_some() {
            return NextStep::GiveUp;
        }
        if self.finished {
            return NextStep::Done;
        }
        let in_flight: usize = self.scheduler.in_flight_count();
        if self.backlog.len() > 0 {
            if in_flight < self.scheduler.limit() && self.scheduler.submitted_count() < u64::MAX {
                NextStep::Dispatch
            } else if in_flight > 0 {
                NextStep::Wait
            } else {
                NextStep::GiveUp
            }
        } else if self.splitter.is_some() {
            NextStep::Read
        } else if in_flight > 0 {
            NextStep::Wait
        } else {
            NextStep::Finish
        }
    }

    /// Starts a run with the settings in `config` and hands out the first
    /// bytes for the sink, the header.
    pub fn new(config: &Config) -> (made: (Pipeline, Vec<u8>))
        ensures
            made.0.wf(),
            made.0.level() == config.level_spec(),
            made.0.block_size() == config.block_size_spec(),
            made.0.capacity() == crate::config::in_flight_limit_for(config.threads_spec()),
            made.0.seen() == Seq::<u8>::empty(),
            made.0.parts() == Seq::<Seq<u8>>::empty(),
            !made.0.input_ended(),
            !made.0.finished(),
            made.0.failure() is None,
            made.0.submitted() == 0,
            made.0.flushed() == 0,
            made.0.results() == Seq::<CompressedBlock>::empty(),
            made.0.held() == Map::<int, CompressedBlock>::empty(),
            made.1@ == header_bytes(config.level_spec()),
            made.0.written() == made.1@,
    {
        let level = config.level();
        let block_size = config.block_size();
        let mut framer = Framer::new(level);
        let header = match framer.begin() {
            Ok(header) => header,
            Err(_) => Vec::new(),
        };
        let pipeline = Pipeline {
            level,
            block_size,
            splitter: Some(Splitter::with_size(block_size)),
            scheduler: Scheduler::with_slots(config.in_flight_limit()),
            framer,
            backlog: Vec::new(),
            finished: false,
            parts: Ghost(Seq::empty()),
            seen: Ghost(Seq::empty()),
            results: Ghost(Seq::empty()),
            written: Ghost(header@),
        };
        (pipeline, header)
    }

    /// Whether `n` more bytes of input can be taken in: the end of the input
    /// must not have been announced, and the count of all input bytes must
    /// stay within 64 bits.
    pub open spec fn takes(&self, n: nat) -> bool {
        !self.input_ended() && self.seen().len() + n <= u64::MAX
    }

    /// Takes in the next bytes of the input and cuts off the blocks that
    /// are complete. Input that cannot be taken in is refused and changes
    /// nothing.
    pub fn offer(&mut self, chunk: &[u8]) -> (taken: Result<(), Error>)
        requires
            old(self).wf(),
        ensures
            final(self).wf(),
            final(self).level() == old(self).level(),
            final(self).block_size() == old(self).block_size(),
            final(self).capacity() == old(self).capacity(),
            final(self).written() == old(self).written(),
            final(self).submitted() == old(self).submitted(),
            final(self).flushed() == old(self).flushed(),
            final(self).failure() == old(self).failure(),
            final(self).finished() == old(self).finished(),
            final(self).input_ended() == old(self).input_ended(),
            final(self).results() == old(self).results(),
            final(self).held() == old(self).held(),
            forall|i: u64| old(self).awaits(i) == final(self).awaits(i),
            old(self).takes(chunk@.len()) ==> taken is Ok && final(self).seen() == old(self).seen()
                + chunk@ && old(self).parts().len() <= final(self).parts().len()
                    && final(self).parts().take(old(self).parts().len() as int) == old(self).parts()
                    && final(self).unflushed() == old(self).unflushed() + chunk@.len(),
            !old(self).takes(chunk@.len()) ==> (taken matches Err(e) && e == Error::InvalidState)
                && final(self).seen() == old(self).seen() && final(self).parts() == old(self).parts(),
    {
        let mut splitter = match self.splitter.take() {
            Some(splitter) => splitter,
            None => {
                return Err(Error::InvalidState);
            },
        };
        if !splitter.has_room(chunk.len()) {
            self.splitter = Some(splitter);
            return Err(Error::InvalidState);
        }
        let mut blocks = splitter.push(chunk);
        let ghost cut = blocks@;
        self.splitter = Some(splitter);
        self.backlog.append(&mut blocks);
        proof {
            let before = old(self).parts@;
            self.seen@ = self.seen@ + chunk@;
            self.parts@ = before + crate::block::contents(cut);
            old(self).scheduler.lemma_bounds();
            let flushed = self.scheduler.flushed() as int;
            assert(self.parts@.take(flushed) =~= before.take(flushed));
            assert(self.results_ok()) by {
                old(self).scheduler.lemma_bounds();
            }
        }
        Ok(())
    }

    /// Announces the end of the input and cuts the last block. Announcing
    /// it twice is refused.
    pub fn end_input(&mut self) -> (ended: Result<(), Error>)
        requires
            old(self).wf(),
        ensures
            final(self).wf(),
            final(self).level() == old(self).level(),
            final(self).block_size() == old(self).block_size(),
            final(self).capacity() == old(self).capacity(),
            final(self).seen() == old(self).seen(),
            final(self).written() == old(self).written(),
            final(self).submitted() == old(self).submitted(),
            final(self).flushed() == old(self).flushed(),
            final(self).failure() == old(self).failure(),
            final(self).finished() == old(self).finished(),
            final(self).input_ended(),
            final(self).results() == old(self).results(),
            final(self).held() == old(self).held(),
            forall|i: u64| old(self).awaits(i) == final(self).awaits(i),
            !old(self).input_ended() ==> ended is Ok && final(self).parts() == chunks(
                old(self).seen(),
                old(self).block_size(),
            ) && final(self).parts().len() == old(self).parts().len() + 1
                && final(self).parts().take(old(self).parts().len() as int) == old(self).parts(),
            old(self).input_ended() ==> (ended matches Err(e) && e == Error::InvalidState)
                && final(self).parts() == old(self).parts(),
    {
        let splitter = match self.splitter.take() {
            Some(splitter) => splitter,
            None => {
                return Err(Error::InvalidState);
            },
        };
        let last = splitter.finish();
        let ghost data = last.data@;
        self.backlog.push(last);
        proof {
            let before = old(self).parts@;
            self.parts@ = before.push(data);
            old(self).scheduler.lemma_bounds();
        }
        Ok(())
    }

    /// Hands out the next block for a worker, if there is one and a slot is
    /// free for it. Blocks are handed out in stream order.
    pub fn next_job(&mut self) -> (job: Option<Block>)
        requires
            old(self).wf(),
        ensures
            final(self).wf(),
            final(self).level() == old(self).level(),
            final(self).block_size() == old(self).block_size(),
            final(self).capacity() == old(self).capacity(),
            final(self).seen() == old(self).seen(),
            final(self).parts() == old(self).parts(),
            final(self).written() == old(self).written(),
            final(self).flushed() == old(self).flushed(),
            final(self).failure() == old(self).failure(),
            final(self).finished() == old(self).finished(),
            final(self).input_ended() == old(self).input_ended(),
            final(self).results() == old(self).results(),
            final(self).held() == old(self).held(),
            job is Some <==> old(self).queued() > 0 && old(self).failure() is None
                && old(self).submitted() - old(self).flushed() < old(self).capacity()
                && old(self).submitted()
                < u64::MAX,
            match job {
                Some(block) => {
                    &&& block.index == old(self).submitted()
                    &&& block.data@ == old(self).parts()[block.index as int]
                    &&& block.last == old(self).is_final(block.index as int)
                    &&& final(self).submitted() == old(self).submitted() + 1
                    &&& final(self).queued() == old(self).queued() - 1
                    &&& final(self).awaits(block.index)
                    &&& forall|i: u64| old(self).awaits(i) ==> final(self).awaits(i)
                },
                None => {
                    &&& final(self).submitted() == old(self).submitted()
                    &&& final(self).queued() == old(self).queued()
                    &&& forall|i: u64| old(self).awaits(i) == final(self).awaits(i)
                },
            },
    {
        if self.backlog.len() == 0 {
            return None;
        }
        proof {
            self.scheduler.lemma_bounds();
        }
        let index: u64 = self.backlog[0].index;
        match self.scheduler.try_submit(index) {
            Submission::Accepted => {},
            _ => {
                return None;
            },
        }
        let block = self.backlog.remove(0);
        Some(block)
    }

    /// Takes in what a worker returned for a block and hands out the bytes
    /// that can go to the sink now: the deflate data of every block that is
    /// next in stream order and has its result in. Results may come in any
    /// order; the bytes leave in stream order. A result that is not taken in
    /// is refused and changes nothing. A failure of a worker ends the run.
    pub fn complete(&mut self, outcome: Result<CompressedBlock, Error>) -> (ready: Result<
        Vec<u8>,
        Error,
    >)
        requires
            old(self).wf(),
        ensures
            final(self).wf(),
            final(self).level() == old(self).level(),
            final(self).block_size() == old(self).block_size(),
            final(self).capacity() == old(self).capacity(),
            final(self).seen() == old(self).seen(),
            final(self).parts() == old(self).parts(),
            final(self).submitted() == old(self).submitted(),
            final(self).queued() == old(self).queued(),
            final(self).finished() == old(self).finished(),
            final(self).input_ended() == old(self).input_ended(),
            ready is Ok <==> (outcome matches Ok(block) && old(self).takes_result(block)),
            match ready {
                Ok(bytes) => {
                    &&& final(self).failure() is None
                    &&& final(self).written() == old(self).written() + bytes@
                    &&& old(self).flushed() <= final(self).flushed()
                    &&& final(self).results().take(old(self).flushed() as int) == old(self).results()
                    &&& forall|j: int|
                        old(self).flushed() <= j < final(self).flushed()
                            ==> #[trigger] old(self).arrived(outcome->Ok_0).contains_key(j)
                    &&& forall|j: int|
                        old(self).flushed() <= j < final(self).flushed()
                            ==> #[trigger] final(self).results()[j] == old(self).arrived(outcome->Ok_0)[j]
                    &&& forall|i: int|
                        i >= final(self).flushed() ==> (#[trigger] final(self).held().contains_key(
                            i,
                        )) == old(self).arrived(outcome->Ok_0).contains_key(i)
                    &&& forall|i: int| #[trigger]
                        final(self).held().contains_key(i)
                            ==> final(self).held()[i] == old(self).arrived(outcome->Ok_0)[i]
                    &&& final(self).flushed() < final(self).submitted() ==> final(self).awaits(
                        final(self).flushed() as u64,
                    )
                },
                Err(e) => {
                    &&& final(self).written() == old(self).written()
                    &&& final(self).flushed() == old(self).flushed()
                    &&& final(self).results() == old(self).results()
                    &&& final(self).held() == old(self).held()
                    &&& e == (match outcome {
                        Ok(_) => old(self).failure().unwrap_or(Error::InvalidState),
                        Err(given) => old(self).failure().unwrap_or(given),
                    })
                    &&& final(self).failure() == (match outcome {
                        Ok(_) => old(self).failure(),
                        Err(given) => Some(old(self).failure().unwrap_or(given)),
                    })
                },
            },
            forall|i: u64| final(self).awaits(i) ==> old(self).awaits(i),
            ready is Ok ==> !final(self).awaits(outcome->Ok_0.index),
    {
        let ghost given = outcome;
        proof {
            self.scheduler.lemma_bounds();
        }
        let outcome = match outcome {
            Ok(block) => {
                let closing: bool = self.splitter.is_none() && self.backlog.len() == 0
                    && block.index < u64::MAX && block.index + 1
                    == self.scheduler.submitted_count();
                if self.scheduler.first_failure().is_none() && block.last != closing {
                    return Err(Error::InvalidState);
                }
                Ok(block)
            },
            Err(e) => Err(e),
        };
        match self.scheduler.record(outcome) {
            Ok(_) => {},
            Err(e) => {
                return Err(e);
            },
        }
        let ghost block = given->Ok_0;
        let ghost inserted = old(self).scheduler.waiting().insert(block.index as int, block);
        let mut out: Vec<u8> = Vec::new();
        let mut running: bool = true;
        proof {
            assert(self.results@.take(old(self).scheduler.flushed() as int) =~= old(self).results@);
        }
        while running
            invariant
                self.wf(),
                !self.finished,
                self.level == old(self).level,
                self.block_size == old(self).block_size,
                self.splitter == old(self).splitter,
                self.backlog == old(self).backlog,
                self.parts@ == old(self).parts@,
                self.seen@ == old(self).seen@,
                self.finished == old(self).finished,
                self.scheduler.capacity() == old(self).scheduler.capacity(),
                self.scheduler.submitted() == old(self).scheduler.submitted(),
                self.scheduler.failure() is None,
                old(self).scheduler.flushed() <= self.scheduler.flushed(),
                self.written@ == old(self).written@ + out@,
                inserted == old(self).scheduler.waiting().insert(block.index as int, block),
                old(self).results@.len() == old(self).scheduler.flushed(),
                self.results@.take(old(self).scheduler.flushed() as int) == old(self).results@,
                forall|j: int|
                    old(self).scheduler.flushed() <= j < self.scheduler.flushed()
                        ==> #[trigger] inserted.contains_key(j),
                forall|j: int|
                    old(self).scheduler.flushed() <= j < self.scheduler.flushed()
                        ==> #[trigger] self.results@[j] == inserted[j],
                forall|i: int|
                    i >= self.scheduler.flushed() ==> (
                    #[trigger] self.scheduler.waiting().contains_key(i)) == inserted.contains_key(
                        i,
                    ),
                forall|i: int| #[trigger]
                    self.scheduler.waiting().contains_key(i) ==> inserted.contains_key(i)
                        && self.scheduler.waiting()[i] == inserted[i],
                !running ==> !self.scheduler.waiting().contains_key(
                    self.scheduler.flushed() as int,
                ),
            decreases self.scheduler.submitted() - self.scheduler.flushed(), (if running {
                    1int
                } else {
                    0int
                }),
        {
            proof {
                self.scheduler.lemma_bounds();
            }
            let ghost before = *self;
            match self.scheduler.next_ready() {
                None => {
                    running = false;
                },
                Some(next) => {
                    match self.framer.write_block(&next) {
                        Ok(_) => {},
                        Err(_) => {},
                    }
                    append(&mut out, next.payload.as_slice());
                    proof {
                        let flushed = before.results@.push(next);
                        assert(flushed.drop_last() =~= before.results@);
                        let grown = before.written@ + next.payload@;
                        assert(grown =~= header_bytes(self.level) + payloads(flushed));
                        self.results@ = flushed;
                        self.written@ = grown;
                        assert(old(self).written@ + out@ =~= grown);
                        assert(self.results@.take(old(self).scheduler.flushed() as int)
                            =~= before.results@.take(old(self).scheduler.flushed() as int));
                    }
                },
            }
        }
        proof {
            self.scheduler.lemma_bounds();
        }
        Ok(out)
    }

    /// Whether the trailer may be written: the end of the input has been
    /// announced, every block has been flushed, and the run has neither
    /// failed nor been finished before.
    pub open spec fn complete_but_for_trailer(&self) -> bool {
        &&& self.input_ended()
        &&& self.flushed() == self.parts().len()
        &&& self.failure() is None
        &&& !self.finished()
    }

    /// Ends the run and hands out the last bytes for the sink, the trailer.
    /// With them, everything written is the compressed stream for the whole
    /// input. While a block is still out, or after a failure, no trailer is
    /// handed out.
    pub fn finish(&mut self) -> (trailer: Result<Vec<u8>, Error>)
        requires
            old(self).wf(),
        ensures
            final(self).wf(),
            final(self).level() == old(self).level(),
            final(self).block_size() == old(self).block_size(),
            final(self).seen() == old(self).seen(),
            final(self).parts() == old(self).parts(),
            final(self).results() == old(self).results(),
            final(self).failure() == old(self).failure(),
            trailer is Ok <==> old(self).complete_but_for_trailer(),
            match trailer {
                Ok(bytes) => {
                    &&& bytes@ == trailer_bytes(
                        sums(old(self).results()).crc,
                        sums(old(self).results()).len,
                    )
                    &&& final(self).written() == old(self).written() + bytes@
                    &&& final(self).written() == framed(old(self).level(), old(self).results())
                    &&& well_ordered(old(self).results())
                    &&& old(self).results().len() == old(self).parts().len()
                    &&& old(self).parts() == chunks(old(self).seen(), old(self).block_size())
                    &&& final(self).finished()
                },
                Err(e) => e == old(self).failure().unwrap_or(Error::InvalidState)
                    && final(self).written() == old(self).written()
                    && final(self).finished() == old(self).finished(),
            },
    {
        match self.scheduler.first_failure() {
            Some(first) => {
                return Err(first);
            },
            None => {},
        }
        if self.finished || self.splitter.is_some() || self.backlog.len() > 0
            || !self.scheduler.is_idle() {
            proof {
                self.scheduler.lemma_bounds();
            }
            return Err(Error::InvalidState);
        }
        proof {
            self.scheduler.lemma_bounds();
            crate::block::lemma_chunks_sizes(self.seen@, self.block_size as nat);
        }
        match self.framer.finish() {
            Ok(bytes) => {
                proof {
                    self.written@ = self.written@ + bytes@;
                }
                self.finished = true;
                self.framer.close();
                Ok(bytes)
            },
            Err(e) => Err(e),
        }
    }

    /// How many blocks are out as jobs or wait to be flushed.
    pub fn in_flight_count(&self) -> (count: usize)
        requires
            self.wf(),
        ensures
            count == self.submitted() - self.flushed(),
            count <= self.capacity(),
    {
        self.scheduler.in_flight_count()
    }

    /// How many blocks are cut and not yet handed out as jobs.
    pub fn queued_count(&self) -> (count: usize)
        ensures
            count == self.queued(),
    {
        self.backlog.len()
    }

    /// Whether the trailer may be written now.
    pub fn is_drained(&self) -> (drained: bool)
        requires
            self.wf(),
        ensures
            drained == self.complete_but_for_trailer(),
    {
        proof {
            self.scheduler.lemma_bounds();
        }
        self.scheduler.first_failure().is_none() && !self.finished && self.splitter.is_none()
            && self.backlog.len() == 0 && self.scheduler.is_idle()
    }

    /// The failure that the run was given up for, if it was.
    pub fn first_failure(&self) -> (failure: Option<Error>)
        ensures
            failure == self.failure(),
    {
        self.scheduler.first_failure()
    }
}

} // verus!
