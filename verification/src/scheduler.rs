//! The bookkeeping of the worker pool: which blocks are out with a worker,
//! which results have come back, and which result is flushed next.
//!
//! Workers finish in any order. A result that comes back early waits in the
//! slot that its index selects until every block before it has been
//! flushed. No more blocks are admitted than there are slots, so a worker
//! that lags stalls the input instead of letting results pile up.

use crate::error::Error;
use crate::frame::CompressedBlock;
use vstd::arithmetic::div_mod::lemma_fundamental_div_mod;
use vstd::prelude::*;

verus! {

/// The answer to a request to hand one more block to the workers.
#[derive(Clone, Copy, Debug, PartialEq, Eq, Structural)]
pub enum Submission {
    /// The block is admitted.
    Accepted,
    /// Every slot is taken; the block has to wait until one is flushed.
    Full,
    /// The block is not the next one in stream order.
    OutOfOrder,
    /// The run has been given up; no block is admitted any more.
    Cancelled,
}

/// The reordering buffer between the workers and the framer.
pub struct Scheduler {
    capacity: usize,
    submitted: u64,
    flushed: u64,
    slots: Vec<Option<CompressedBlock>>,
    failure: Option<Error>,
}

/// The slot that holds the result with index `i` among `c` slots.
spec fn slot_of(i: int, c: int) -> int {
    i % c
}

proof fn lemma_slots_differ(a: int, b: int, c: int)
    requires
        c > 0,
        0 <= a < b < a + c,
    ensures
        a % c != b % c,
{
    lemma_fundamental_div_mod(a, c);
    lemma_fundamental_div_mod(b, c);
    if a % c == b % c {
        let k = b / c - a / c;
        assert(b - a == c * k) by (nonlinear_arith)
            requires
                a == c * (a / c) + a % c,
                b == c * (b / c) + b % c,
                a % c == b % c,
                k == b / c - a / c,
        ;
        assert(false) by (nonlinear_arith)
            requires
                0 < c * k < c,
                c > 0,
        ;
    }
}

impl Scheduler {
    /// The invariant of a scheduler.
    pub closed spec fn wf(&self) -> bool {
        &&& self.capacity > 0
        &&& self.slots@.len() == self.capacity
        &&& self.flushed <= self.submitted
        &&& self.submitted - self.flushed <= self.capacity
        &&& forall|s: int|
            0 <= s < self.slots@.len() ==> ((#[trigger] self.slots@[s]) matches Some(cb)
                ==> self.flushed <= cb.index < self.submitted && slot_of(
                cb.index as int,
                self.capacity as int,
            ) == s)
    }

    /// The number of slots: the most blocks that may be in flight.
    pub closed spec fn capacity(&self) -> nat {
        self.capacity as nat
    }

    /// How many blocks have been admitted so far; also the index that the
    /// next block must have.
    pub closed spec fn submitted(&self) -> nat {
        self.submitted as nat
    }

    /// How many results have been flushed so far; also the index of the
    /// result that is flushed next.
    pub closed spec fn flushed(&self) -> nat {
        self.flushed as nat
    }

    /// The results that have come back and wait to be flushed, by index.
    pub closed spec fn waiting(&self) -> Map<int, CompressedBlock> {
        Map::new(
            |i: int|
                self.flushed <= i < self.submitted && self.slots@[slot_of(
                    i,
                    self.capacity as int,
                )] is Some,
            |i: int| self.slots@[slot_of(i, self.capacity as int)]->Some_0,
        )
    }

    /// The failure that the run was given up for, if it was.
    pub closed spec fn failure(&self) -> Option<Error> {
        self.failure
    }

    /// How many blocks are admitted and not yet flushed.
    pub open spec fn in_flight(&self) -> nat {
        (self.submitted() - self.flushed()) as nat
    }

    /// What the invariant says in terms of the public view: the blocks in
    /// flight are within the limit, and every waiting result belongs to a
    /// block in flight and sits under its own index.
    pub proof fn lemma_bounds(&self)
        requires
            self.wf(),
        ensures
            self.capacity() > 0,
            self.flushed() <= self.submitted() <= self.flushed() + self.capacity(),
            self.submitted() <= u64::MAX,
            forall|i: int| #[trigger]
                self.waiting().contains_key(i) ==> self.flushed() <= i < self.submitted()
                    && self.waiting()[i].index == i,
    {
        assert forall|i: int| #[trigger] self.waiting().contains_key(i) implies self.flushed() <= i
            < self.submitted() && self.waiting()[i].index == i by {
            let c = self.capacity as int;
            let s = i % c;
            lemma_fundamental_div_mod(i, c);
            let cb = self.slots@[s]->Some_0;
            if cb.index < i {
                lemma_slots_differ(cb.index as int, i, c);
            } else if cb.index > i {
                lemma_slots_differ(i, cb.index as int, c);
            }
        }
    }

    /// A scheduler with `limit` slots; a limit of zero is refused.
    pub fn with_limit(limit: usize) -> (made: Result<Scheduler, Error>)
        ensures
            limit == 0 ==> (made matches Err(e) && e == Error::InvalidThreads),
            limit > 0 ==> (made matches Ok(s) && s.wf() && s.capacity() == limit && s.submitted()
                == 0 && s.flushed() == 0 && s.waiting() == Map::<int, CompressedBlock>::empty()
                && s.failure() is None),
    {
        if limit == 0 {
            return Err(Error::InvalidThreads);
        }
        Ok(Scheduler::with_slots(limit))
    }

    /// A scheduler with `limit` slots, which is not zero.
    pub fn with_slots(limit: usize) -> (scheduler: Scheduler)
        requires
            limit > 0,
        ensures
            scheduler.wf(),
            scheduler.capacity() == limit,
            scheduler.submitted() == 0,
            scheduler.flushed() == 0,
            scheduler.waiting() == Map::<int, CompressedBlock>::empty(),
            scheduler.failure() is None,
    {
        let mut slots: Vec<Option<CompressedBlock>> = Vec::new();
        let mut i: usize = 0;
        while i < limit
            invariant
                i <= limit,
                slots@.len() == i,
                forall|s: int| 0 <= s < i ==> (#[trigger] slots@[s]) is None,
            decreases limit - i,
        {
            slots.push(None);
            i = i + 1;
        }
        let scheduler = Scheduler {
            capacity: limit,
            submitted: 0,
            flushed: 0,
            slots,
            failure: None,
        };
        scheduler
    }

    /// How many blocks have been admitted so far.
    pub fn submitted_count(&self) -> (count: u64)
        ensures
            count == self.submitted(),
    {
        self.submitted
    }

    /// How many results have been flushed so far.
    pub fn flushed_count(&self) -> (count: u64)
        ensures
            count == self.flushed(),
    {
        self.flushed
    }

    /// The number of slots.
    pub fn limit(&self) -> (limit: usize)
        ensures
            limit == self.capacity(),
    {
        self.capacity
    }

    /// How many blocks are admitted and not yet flushed.
    pub fn in_flight_count(&self) -> (count: usize)
        requires
            self.wf(),
        ensures
            count == self.in_flight(),
            count <= self.capacity(),
    {
        (self.submitted - self.flushed) as usize
    }

    /// Whether every admitted block has been flushed.
    pub fn is_idle(&self) -> (idle: bool)
        requires
            self.wf(),
        ensures
            idle == (self.in_flight() == 0),
    {
        self.submitted == self.flushed
    }

    /// The failure that the run was given up for, if it was.
    pub fn first_failure(&self) -> (failure: Option<Error>)
        ensures
            failure == self.failure(),
    {
        self.failure
    }

    /// Gives the run up because of `error`. The first failure is the one
    /// that is kept. From now on no block is admitted and no result is
    /// handed out, so the stream never gets its last block.
    pub fn abort(&mut self, error: Error)
        requires
            old(self).wf(),
        ensures
            final(self).wf(),
            final(self).capacity() == old(self).capacity(),
            final(self).submitted() == old(self).submitted(),
            final(self).flushed() == old(self).flushed(),
            final(self).waiting() == old(self).waiting(),
            final(self).failure() == (if old(self).failure() is Some {
                old(self).failure()
            } else {
                Some(error)
            }),
    {
        if self.failure.is_none() {
            self.failure = Some(error);
        }
    }

    /// Takes in what a worker returned: a result is put in its slot, a
    /// failure ends the run.
    pub fn record(&mut self, outcome: Result<CompressedBlock, Error>) -> (taken: Result<(), Error>)
        requires
            old(self).wf(),
        ensures
            final(self).wf(),
            final(self).capacity() == old(self).capacity(),
            final(self).submitted() == old(self).submitted(),
            final(self).flushed() == old(self).flushed(),
            match outcome {
                Ok(block) => {
                    &&& final(self).failure() == old(self).failure()
                    &&& old(self).admits(block) ==> taken is Ok
                        && final(self).waiting() == old(self).waiting().insert(block.index as int, block)
                    &&& !old(self).admits(block) ==> taken == Err::<(), Error>(
                        old(self).refusal(),
                    ) && final(self).waiting() == old(self).waiting()
                },
                Err(e) => {
                    &&& final(self).waiting() == old(self).waiting()
                    &&& final(self).failure() == Some(old(self).refusal_or(e))
                    &&& taken == Err::<(), Error>(old(self).refusal_or(e))
                },
            },
    {
        match outcome {
            Ok(block) => self.complete(block),
            Err(e) => {
                self.abort(e);
                match self.failure {
                    Some(first) => Err(first),
                    None => Err(e),
                }
            },
        }
    }

    /// Asks to hand the block with `index` to the workers. Blocks are
    /// admitted in stream order, and only while a slot is free.
    pub fn try_submit(&mut self, index: u64) -> (answer: Submission)
        requires
            old(self).wf(),
        ensures
            final(self).wf(),
            final(self).capacity() == old(self).capacity(),
            final(self).flushed() == old(self).flushed(),
            final(self).waiting() == old(self).waiting(),
            final(self).failure() == old(self).failure(),
            answer == (if old(self).failure() is Some {
                Submission::Cancelled
            } else if index != old(self).submitted() {
                Submission::OutOfOrder
            } else if old(self).in_flight() >= old(self).capacity() || index == u64::MAX {
                Submission::Full
            } else {
                Submission::Accepted
            }),
            final(self).submitted() == (if answer == Submission::Accepted {
                old(self).submitted() + 1
            } else {
                old(self).submitted()
            }),
    {
        if self.failure.is_some() {
            return Submission::Cancelled;
        }
        if index != self.submitted {
            return Submission::OutOfOrder;
        }
        if self.submitted - self.flushed >= self.capacity as u64 || index == u64::MAX {
            return Submission::Full;
        }
        self.submitted = self.submitted + 1;
        proof {
            let c = self.capacity as int;
            lemma_fundamental_div_mod(index as int, c);
            let s = (index as int) % c;
            if self.slots@[s] is Some {
                let cb = self.slots@[s]->Some_0;
                lemma_slots_differ(cb.index as int, index as int, c);
            }
        }
        Submission::Accepted
    }

    /// Whether the result `block` is taken in: the run must not have been
    /// given up, the block must be in flight, and its result must not have
    /// come back before.
    pub open spec fn admits(&self, block: CompressedBlock) -> bool {
        &&& self.failure() is None
        &&& self.flushed() <= block.index < self.submitted()
        &&& !self.waiting().contains_key(block.index as int)
    }

    /// What a result that is not taken in is refused with: the failure that
    /// the run was given up for, or else a misuse.
    pub open spec fn refusal(&self) -> Error {
        self.refusal_or(Error::InvalidState)
    }

    /// The failure that the run was given up for, or else `other`.
    pub open spec fn refusal_or(&self, other: Error) -> Error {
        match self.failure() {
            Some(first) => first,
            None => other,
        }
    }

    /// Takes in the result of a worker. A result that is not admitted is
    /// refused and changes nothing.
    pub fn complete(&mut self, block: CompressedBlock) -> (taken: Result<(), Error>)
        requires
            old(self).wf(),
        ensures
            final(self).wf(),
            final(self).capacity() == old(self).capacity(),
            final(self).submitted() == old(self).submitted(),
            final(self).flushed() == old(self).flushed(),
            final(self).failure() == old(self).failure(),
            old(self).admits(block) ==> taken is Ok
                && final(self).waiting() == old(self).waiting().insert(block.index as int, block),
            !old(self).admits(block) ==> taken == Err::<(), Error>(old(self).refusal())
                && final(self).waiting() == old(self).waiting(),
    {
        match self.failure {
            Some(first) => {
                return Err(first);
            },
            None => {},
        }
        if block.index < self.flushed || block.index >= self.submitted {
            return Err(Error::InvalidState);
        }
        let index: u64 = block.index;
        let slot: usize = (index % (self.capacity as u64)) as usize;
        proof {
            lemma_fundamental_div_mod(index as int, self.capacity as int);
        }
        if self.slots[slot].is_some() {
            return Err(Error::InvalidState);
        }
        self.slots[slot] = Some(block);
        proof {
            let c = self.capacity as int;
            assert forall|i: int|
                old(self).flushed <= i < old(self).submitted && i != index implies #[trigger] slot_of(
                i,
                c,
            ) != slot by {
                lemma_fundamental_div_mod(i, c);
                if i < index {
                    lemma_slots_differ(i, index as int, c);
                } else {
                    lemma_slots_differ(index as int, i, c);
                }
            }
        }
        Ok(())
    }

    /// Hands out the result that is next in stream order, if it has come
    /// back and the run has not been given up. Results leave in the order
    /// of their indices, whatever order they came in.
    pub fn next_ready(&mut self) -> (ready: Option<CompressedBlock>)
        requires
            old(self).wf(),
        ensures
            final(self).wf(),
            final(self).capacity() == old(self).capacity(),
            final(self).submitted() == old(self).submitted(),
            final(self).failure() == old(self).failure(),
            match ready {
                Some(block) => {
                    &&& old(self).failure() is None
                    &&& old(self).waiting().contains_key(old(self).flushed() as int)
                    &&& block == old(self).waiting()[old(self).flushed() as int]
                    &&& block.index == old(self).flushed()
                    &&& final(self).flushed() == old(self).flushed() + 1
                    &&& final(self).waiting() == old(self).waiting().remove(
                        old(self).flushed() as int,
                    )
                },
                None => {
                    &&& old(self).failure() is Some || !old(self).waiting().contains_key(
                        old(self).flushed() as int,
                    )
                    &&& final(self).flushed() == old(self).flushed()
                    &&& final(self).waiting() == old(self).waiting()
                },
            },
    {
        if self.failure.is_some() || self.flushed == self.submitted {
            return None;
        }
        let next: u64 = self.flushed;
        let slot: usize = (next % (self.capacity as u64)) as usize;
        proof {
            lemma_fundamental_div_mod(next as int, self.capacity as int);
        }
        if self.slots[slot].is_none() {
            return None;
        }
        let ready = self.slots[slot].take();
        proof {
            let c = self.capacity as int;
            let cb = old(self).slots@[slot as int]->Some_0;
            if cb.index > next {
                lemma_slots_differ(next as int, cb.index as int, c);
            }
            assert forall|i: int|
                old(self).flushed < i < old(self).submitted implies #[trigger] slot_of(i, c)
                != slot by {
                lemma_fundamental_div_mod(i, c);
                lemma_slots_differ(next as int, i, c);
            }
        }
        self.flushed = self.flushed + 1;
        ready
    }
}

} // verus!
