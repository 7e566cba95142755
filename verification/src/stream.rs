//! Decompression of a stream that arrives in pieces.
//!
//! The decoder takes the input chunk by chunk and hands the decoded bytes on
//! as soon as the inflater produces them. It holds back only what it cannot
//! use yet: the bytes of a header or of a trailer that is not complete.

use crate::bytes::append;
use crate::checksum::{low32, StreamState};
use crate::codec::{inflater_new, inflater_run, inflater_total_in, Progress};
use crate::crc::{
    crc32, crc32_update, lemma_crc32_empty, lemma_crc32_update_concat, Crc32Table,
};
use crate::error::{Category, CorruptKind, Error};
use crate::frame::{from_le32, lemma_from_le32_round_trip, read_le32, trailer_bytes};
use crate::member::{parse_header, read_header};
use vstd::prelude::*;
use vstd::slice::slice_subrange;

verus! {

/// Room for decoded bytes offered to the inflater on each run.
pub const SCRATCH_LEN: usize = 65536;

/// How many runs in a row may read no input before the stream is given up.
pub const STALL_LIMIT: u32 = 1048576;

/// Where a decoder stands within the stream.
#[derive(Clone, Copy, Debug, PartialEq, Eq, Structural)]
pub enum Phase {
    /// Reading the header of a member.
    Header,
    /// Inflating the deflate data of a member.
    Body,
    /// Reading the trailer of a member.
    Trailer,
    /// Just after a member that passed its checks, with no input left over.
    Boundary,
    /// After a failure. Nothing more is decoded.
    Failed,
}

/// How far one step of the decoder got.
#[derive(Clone, Copy)]
struct Step {
    cursor: usize,
    budget: u32,
    running: bool,
}

/// The reader's side of a stream of gzip members.
pub struct Decoder {
    phase: Phase,
    engine: flate2::Decompress,
    table: Crc32Table,
    pending: Vec<u8>,
    crc: u32,
    len: u32,
    member: usize,
    position: usize,
    fed: Ghost<Seq<u8>>,
    taken: Ghost<nat>,
    current: Ghost<Seq<u8>>,
    done: Ghost<Seq<Seq<u8>>>,
    ends: Ghost<Seq<nat>>,
    handed: Ghost<Seq<Seq<u8>>>,
    handed_at: Ghost<Seq<nat>>,
}

/// What the decoder makes of one run of the inflater.
#[derive(Clone, Copy, Debug, PartialEq, Eq, Structural)]
pub struct Advance {
    /// How many of the bytes it was handed the inflater took.
    pub consumed: usize,
    /// How many more runs in a row may take no input.
    pub budget: u32,
    /// Whether the deflate data has ended, so that the trailer comes next.
    pub ended: bool,
    /// Whether the inflater is to be run again on what is left.
    pub running: bool,
}

/// What is made of one run of the inflater, or `None` where the stream is
/// given up as malformed. `status` is what the run reported, `None` for a
/// failure; `before` and `after` are the inflater's counts of input taken
/// before and after the run; `available` is how many bytes it was handed,
/// `produced` how many it wrote, and `budget` how many runs in a row may
/// still take no input.
///
/// The stream is given up where the run failed, where the counts are not
/// those of a run that took some of the bytes it was handed, where a run
/// took nothing with the budget used up, and where a run took nothing and
/// wrote nothing although there were bytes to take and the data has not
/// ended. Otherwise the bytes taken are the difference of the counts. A
/// run that took input renews the budget, any other uses one of it. The
/// inflater is run again unless it neither took nor wrote anything.
pub open spec fn judged(
    status: Option<Progress>,
    before: u64,
    after: u64,
    available: usize,
    produced: usize,
    budget: u32,
) -> Option<Advance> {
    match status {
        None => None,
        Some(progress) => {
            let ended = progress == Progress::End;
            let idle = after == before && produced == 0;
            if after < before || after - before > available {
                None
            } else if after == before && (budget == 0 || (idle && !ended && available > 0)) {
                None
            } else {
                Some(
                    Advance {
                        consumed: (after - before) as usize,
                        budget: if after > before {
                            1048576
                        } else {
                            (budget - 1) as u32
                        },
                        ended,
                        running: ended || !idle,
                    },
                )
            }
        },
    }
}

/// Judges one run of the inflater from what it reported.
pub fn judge_run(
    status: Option<Progress>,
    before: u64,
    after: u64,
    available: usize,
    produced: usize,
    budget: u32,
) -> (next: Option<Advance>)
    ensures
        next == judged(status, before, after, available, produced, budget),
{
    let progress = match status {
        Some(progress) => progress,
        None => {
            return None;
        },
    };
    if after < before || after - before > available as u64 {
        return None;
    }
    let consumed: usize = (after - before) as usize;
    let ended: bool = match progress {
        Progress::End => true,
        _ => false,
    };
    let idle: bool = consumed == 0 && produced == 0;
    if consumed == 0 && (budget == 0 || (idle && !ended && available > 0)) {
        return None;
    }
    Some(
        Advance {
            consumed,
            budget: if consumed > 0 {
                STALL_LIMIT
            } else {
                budget - 1
            },
            ended,
            running: ended || !idle,
        },
    )
}

/// The sums of a member's decoded bytes after `written` more of them.
pub open spec fn sums_after(sums: StreamState, written: Seq<u8>) -> StreamState {
    StreamState {
        crc: crc32_update(sums.crc, written),
        len: low32(sums.len + written.len()),
    }
}

/// What one run of the inflater comes to: the sums of the member's decoded
/// bytes with the bytes `written` taken in, and how the decoder goes on; or
/// `None` where the stream is given up.
pub open spec fn absorbed(
    sums: StreamState,
    status: Option<Progress>,
    before: u64,
    after: u64,
    available: usize,
    written: Seq<u8>,
    budget: u32,
) -> Option<(StreamState, Advance)> {
    match judged(status, before, after, available, written.len() as usize, budget) {
        None => None,
        Some(advance) => Some((sums_after(sums, written), advance)),
    }
}

/// Takes in one run of the inflater. `sums` are the checksum and length of
/// what has been decoded of the member so far, `written` are the bytes the
/// run wrote, and the other arguments are those of `judge_run`.
///
/// Where the stream is given up, nothing is handed on. Otherwise the bytes
/// written are appended to `out` as they are, and they are folded into the
/// sums that the member's trailer is held against.
pub fn absorb_run(
    sums: StreamState,
    status: Option<Progress>,
    before: u64,
    after: u64,
    available: usize,
    written: &[u8],
    budget: u32,
    table: &Crc32Table,
    out: &mut Vec<u8>,
) -> (next: Option<(StreamState, Advance)>)
    ensures
        next == absorbed(sums, status, before, after, available, written@, budget),
        final(out)@ == (if next is Some {
            old(out)@ + written@
        } else {
            old(out)@
        }),
{
    let advance = match judge_run(status, before, after, available, written.len(), budget) {
        Some(advance) => advance,
        None => {
            return None;
        },
    };
    let crc: u32 = table.update(sums.crc, written);
    let len: u32 = (((sums.len as u64) + ((written.len() as u64) % 0x1_0000_0000))
        % 0x1_0000_0000) as u32;
    append(out, written);
    Some((StreamState { crc, len }, advance))
}

/// `piece` lies in `fed` at offset `at`.
pub open spec fn lies_at(fed: Seq<u8>, at: nat, piece: Seq<u8>) -> bool {
    &&& at + piece.len() <= fed.len()
    &&& fed.subrange(at as int, (at + piece.len()) as int) == piece
}

/// `n` as far as a `usize` can count.
pub open spec fn clipped(n: nat) -> usize {
    if n <= usize::MAX {
        n as usize
    } else {
        usize::MAX
    }
}

/// The trailer that ends at offset `end` of `fed` is that of `data`.
pub open spec fn trailer_matches(fed: Seq<u8>, end: nat, data: Seq<u8>) -> bool {
    &&& 8 <= end <= fed.len()
    &&& fed.subrange(end - 8, end as int) == trailer_bytes(crc32(data), low32(data.len() as int))
}

/// What is wrong with the trailer at the front of `rest`, held against the
/// decoded bytes `data`, and where in the trailer: a wrong checksum at 0, or
/// else a wrong length at 4.
pub open spec fn trailer_fault(rest: Seq<u8>, data: Seq<u8>) -> Option<(CorruptKind, nat)>
    recommends
        rest.len() >= 8,
{
    if from_le32(rest.subrange(0, 4)) != crc32(data) {
        Some((CorruptKind::ChecksumMismatch, 0nat))
    } else if from_le32(rest.subrange(4, 8)) != low32(data.len() as int) {
        Some((CorruptKind::LengthMismatch, 4nat))
    } else {
        None
    }
}

/// What is wrong with a stream that ends while the decoder is in `phase`.
pub open spec fn unfinished(phase: Phase) -> CorruptKind {
    match phase {
        Phase::Header => CorruptKind::TruncatedHeader,
        Phase::Body => CorruptKind::BadDeflate,
        _ => CorruptKind::TruncatedTrailer,
    }
}

impl Decoder {
    /// Where the decoder stands.
    pub closed spec fn phase(&self) -> Phase {
        self.phase
    }

    /// All the input fed so far.
    pub closed spec fn fed(&self) -> Seq<u8> {
        self.fed@
    }

    /// How many bytes at the end of the input are held back for later.
    pub open spec fn held(&self) -> nat {
        self.held_bytes().len()
    }

    /// The bytes at the end of the input that are held back for later.
    pub closed spec fn held_bytes(&self) -> Seq<u8> {
        self.pending@
    }

    /// How many bytes of the input have been used.
    pub closed spec fn consumed(&self) -> nat {
        self.taken@
    }

    /// The decoded contents of the members that have passed their checks.
    pub closed spec fn members(&self) -> Seq<Seq<u8>> {
        self.done@
    }

    /// For each member that has passed its checks, the offset in the input
    /// just after its trailer.
    pub closed spec fn ends(&self) -> Seq<nat> {
        self.ends@
    }

    /// The bytes decoded so far of the member that is being read.
    pub closed spec fn current(&self) -> Seq<u8> {
        self.current@
    }

    /// What the inflater was handed, run by run, since the decoder was made.
    pub closed spec fn handed(&self) -> Seq<Seq<u8>> {
        self.handed@
    }

    /// For each run of the inflater, the offset in the input of the bytes
    /// it was handed.
    pub closed spec fn handed_at(&self) -> Seq<nat> {
        self.handed_at@
    }

    /// Every byte handed out so far.
    pub open spec fn produced(&self) -> Seq<u8> {
        self.members().flatten() + self.current()
    }

    /// Run number `run` of the inflater was handed `piece`, which lies at
    /// offset `at` of the input.
    pub open spec fn was_handed(&self, run: nat, piece: Seq<u8>, at: nat) -> bool {
        &&& run < self.handed().len()
        &&& self.handed()[run as int] == piece
        &&& self.handed_at()[run as int] == at
    }

    /// What is owed of a call to `feed` once it stands at a header. `self`
    /// is the decoder after the call and `fed` what the call returned;
    /// `rest` are the bytes at hand, `at` is their offset in the input,
    /// `member` the number of the member that the header opens, `runs` the
    /// number of runs of the inflater before the call, and `quiet` says
    /// that the call has written nothing.
    ///
    /// A header that is still incomplete is held back and the call
    /// succeeds. A malformed header fails with its fault. After a complete
    /// header the inflater is handed everything that follows it.
    pub open spec fn at_header(
        &self,
        rest: Seq<u8>,
        at: nat,
        member: nat,
        runs: nat,
        quiet: bool,
        fed: Result<(), Error>,
    ) -> bool {
        match parse_header(rest) {
            Ok(n) => self.was_handed(runs, rest.skip(n as int), at + n),
            Err(kind) => if kind == CorruptKind::TruncatedHeader {
                fed is Ok && self.phase() == Phase::Header && self.held_bytes() == rest && quiet
            } else {
                fed == Err::<(), Error>(
                    Error::Corrupt { kind, member: clipped(member), offset: clipped(at) },
                )
            },
        }
    }

    /// What is owed of a call to `feed` that begins at a trailer, with
    /// `data` decoded for the member and the other arguments as for
    /// `at_header`.
    ///
    /// A trailer that is still incomplete is held back and the call
    /// succeeds. A trailer that does not match fails with its fault. A
    /// trailer that matches makes `data` the next member; if nothing is
    /// left after it the call succeeds at the boundary, and if something is
    /// left the call stands at the header of the member that follows.
    pub open spec fn at_trailer(
        &self,
        rest: Seq<u8>,
        data: Seq<u8>,
        at: nat,
        member: nat,
        runs: nat,
        quiet: bool,
        fed: Result<(), Error>,
    ) -> bool {
        if rest.len() < 8 {
            fed is Ok && self.phase() == Phase::Trailer && self.held_bytes() == rest && quiet
        } else {
            match trailer_fault(rest, data) {
                Some((kind, offset)) => fed == Err::<(), Error>(
                    Error::Corrupt { kind, member: clipped(member), offset: clipped(at + offset) },
                ),
                None => {
                    &&& self.members().len() > member
                    &&& self.members()[member as int] == data
                    &&& if rest.len() == 8 {
                        fed is Ok && self.phase() == Phase::Boundary && quiet
                    } else {
                        self.at_header(rest.skip(8), at + 8, member + 1, runs, quiet, fed)
                    }
                },
            }
        }
    }

    spec fn sound(&self) -> bool {
        &&& self.crc == crc32(self.current@)
        &&& self.len == low32(self.current@.len() as int)
        &&& self.member == clipped(self.done@.len())
        &&& self.position == clipped(self.taken@)
        &&& self.ends@.len() == self.done@.len()
        &&& forall|i: int|
            0 <= i < self.ends@.len() ==> trailer_matches(
                self.fed@,
                #[trigger] self.ends@[i],
                self.done@[i],
            )
        &&& self.handed_at@.len() == self.handed@.len()
        &&& forall|k: int|
            0 <= k < self.handed@.len() ==> lies_at(
                self.fed@,
                self.handed_at@[k],
                #[trigger] self.handed@[k],
            )
    }

    /// The invariant of a decoder.
    pub closed spec fn wf(&self) -> bool {
        &&& self.fed@.len() == self.taken@ + self.pending@.len()
        &&& self.fed@.skip(self.taken@ as int) == self.pending@
        &&& self.sound()
        &&& (self.phase == Phase::Header || self.phase == Phase::Boundary)
            ==> self.current@.len() == 0
        &&& self.phase == Phase::Boundary ==> self.pending@.len() == 0 && self.done@.len() > 0
        &&& self.phase == Phase::Body ==> self.pending@.len() == 0
        &&& self.phase == Phase::Trailer ==> self.pending@.len() < 8
        &&& self.phase == Phase::Header ==> parse_header(self.pending@) == Err::<
            nat,
            CorruptKind,
        >(CorruptKind::TruncatedHeader)
    }

    /// What the invariant says of the members: each one that has passed ends
    /// with a trailer, in the input as it was fed, that holds the checksum
    /// and the length of the bytes decoded for it. What is held back is
    /// never a whole trailer, and nothing is held back inside deflate data.
    pub proof fn lemma_members_checked(&self)
        requires
            self.wf(),
        ensures
            self.ends().len() == self.members().len(),
            forall|i: int|
                0 <= i < self.members().len() ==> trailer_matches(
                    self.fed(),
                    #[trigger] self.ends()[i],
                    self.members()[i],
                ),
            self.phase() == Phase::Boundary ==> self.held() == 0 && self.members().len() > 0
                && self.current().len() == 0,
            self.phase() == Phase::Body ==> self.held() == 0,
            self.phase() == Phase::Trailer ==> self.held() < 8,
            self.consumed() + self.held() == self.fed().len(),
            self.fed().skip(self.consumed() as int) == self.held_bytes(),
            self.handed_at().len() == self.handed().len(),
            forall|k: int|
                0 <= k < self.handed().len() ==> lies_at(
                    self.fed(),
                    self.handed_at()[k],
                    #[trigger] self.handed()[k],
                ),
    {
    }

    /// A decoder at the start of a stream.
    pub fn new() -> (decoder: Decoder)
        ensures
            decoder.wf(),
            decoder.phase() == Phase::Header,
            decoder.fed() == Seq::<u8>::empty(),
            decoder.members() == Seq::<Seq<u8>>::empty(),
            decoder.current() == Seq::<u8>::empty(),
            decoder.handed() == Seq::<Seq<u8>>::empty(),
    {
        proof {
            lemma_crc32_empty();
        }
        let decoder = Decoder {
            phase: Phase::Header,
            engine: inflater_new(),
            table: Crc32Table::new(),
            pending: Vec::new(),
            crc: 0,
            len: 0,
            member: 0,
            position: 0,
            fed: Ghost(Seq::empty()),
            taken: Ghost(0),
            current: Ghost(Seq::empty()),
            done: Ghost(Seq::empty()),
            ends: Ghost(Seq::empty()),
            handed: Ghost(Seq::empty()),
            handed_at: Ghost(Seq::empty()),
        };
        assert(decoder.fed@.skip(0) =~= decoder.pending@);
        decoder
    }

    /// Where the decoder stands.
    pub fn state(&self) -> (phase: Phase)
        ensures
            phase == self.phase(),
    {
        self.phase
    }

    /// How many members have passed their checks.
    pub fn members_done(&self) -> (count: usize)
        requires
            self.wf(),
        ensures
            count == clipped(self.members().len()),
    {
        self.member
    }

    fn corrupt(&self, kind: CorruptKind, cursor: usize) -> (e: Error)
        requires
            self.member == clipped(self.done@.len()),
            self.position == clipped(self.taken@),
        ensures
            e == (Error::Corrupt {
                kind,
                member: clipped(self.done@.len()),
                offset: clipped((self.taken@ + cursor) as nat),
            }),
    {
        let offset: usize = if self.position > usize::MAX - cursor {
            usize::MAX
        } else {
            self.position + cursor
        };
        Error::Corrupt { kind, member: self.member, offset }
    }

    /// The invariant between two steps of `feed`, when `cursor` bytes of
    /// what is held have been used.
    spec fn mid(&self, cursor: int) -> bool {
        &&& 0 <= cursor <= self.pending@.len()
        &&& self.fed@.len() == self.taken@ + self.pending@.len()
        &&& self.fed@.skip(self.taken@ as int) == self.pending@
        &&& self.sound()
        &&& self.phase != Phase::Failed
        &&& (self.phase == Phase::Header || self.phase == Phase::Boundary)
            ==> self.current@.len() == 0
    }

    /// Why a step may stop the loop: what is left is an incomplete header or
    /// an incomplete trailer, or there is nothing left.
    spec fn settled(&self, cursor: int) -> bool {
        &&& self.phase == Phase::Header ==> parse_header(self.pending@.skip(cursor)) == Err::<
            nat,
            CorruptKind,
        >(CorruptKind::TruncatedHeader)
        &&& self.phase == Phase::Body ==> cursor == self.pending@.len()
        &&& self.phase == Phase::Trailer ==> self.pending@.len() - cursor < 8
    }

    /// What decoding does to the decoder and to the output, however far it
    /// gets: the input held stays as it is, the output grows by what is
    /// decoded, and members are only added.
    spec fn moved(before: Decoder, after: Decoder, out_before: Seq<u8>, out_after: Seq<u8>) -> bool {
        &&& after.pending@ == before.pending@
        &&& after.fed@ == before.fed@
        &&& after.taken@ == before.taken@
        &&& after.sound()
        &&& out_before.len() <= out_after.len()
        &&& out_after.subrange(0, out_before.len() as int) == out_before
        &&& after.produced() == before.produced() + out_after.skip(out_before.len() as int)
        &&& before.done@.len() <= after.done@.len()
        &&& after.done@.subrange(0, before.done@.len() as int) == before.done@
        &&& before.handed@.len() <= after.handed@.len()
        &&& after.handed@.subrange(0, before.handed@.len() as int) == before.handed@
        &&& after.handed_at@.subrange(0, before.handed@.len() as int) == before.handed_at@
    }

    proof fn lemma_moved_twice(
        a: Decoder,
        b: Decoder,
        c: Decoder,
        out_a: Seq<u8>,
        out_b: Seq<u8>,
        out_c: Seq<u8>,
    )
        requires
            Self::moved(a, b, out_a, out_b),
            Self::moved(b, c, out_b, out_c),
        ensures
            Self::moved(a, c, out_a, out_c),
    {
        let first = out_b.skip(out_a.len() as int);
        let second = out_c.skip(out_b.len() as int);
        assert(out_c.skip(out_a.len() as int) =~= first + second);
        assert(out_c.subrange(0, out_a.len() as int) =~= out_a);
        assert(a.produced() + (first + second) =~= (a.produced() + first) + second);
        assert(c.done@.subrange(0, a.done@.len() as int) =~= c.done@.subrange(
            0,
            b.done@.len() as int,
        ).subrange(0, a.done@.len() as int));
        assert(c.handed@.subrange(0, a.handed@.len() as int) =~= c.handed@.subrange(
            0,
            b.handed@.len() as int,
        ).subrange(0, a.handed@.len() as int));
        assert(c.handed_at@.subrange(0, a.handed@.len() as int) =~= c.handed_at@.subrange(
            0,
            b.handed@.len() as int,
        ).subrange(0, a.handed@.len() as int));
    }

    proof fn lemma_moved_keeps(a: Decoder, b: Decoder, out_a: Seq<u8>, out_b: Seq<u8>)
        requires
            Self::moved(a, b, out_a, out_b),
        ensures
            forall|i: int| 0 <= i < a.done@.len() ==> #[trigger] b.done@[i] == a.done@[i],
            forall|k: int| 0 <= k < a.handed@.len() ==> #[trigger] b.handed@[k] == a.handed@[k],
            forall|k: int|
                0 <= k < a.handed@.len() ==> #[trigger] b.handed_at@[k] == a.handed_at@[k],
    {
        assert forall|i: int| 0 <= i < a.done@.len() implies #[trigger] b.done@[i]
            == a.done@[i] by {
            assert(b.done@.subrange(0, a.done@.len() as int)[i] == b.done@[i]);
        }
        assert forall|k: int| 0 <= k < a.handed@.len() implies #[trigger] b.handed@[k]
            == a.handed@[k] by {
            assert(b.handed@.subrange(0, a.handed@.len() as int)[k] == b.handed@[k]);
        }
        assert forall|k: int| 0 <= k < a.handed@.len() implies #[trigger] b.handed_at@[k]
            == a.handed_at@[k] by {
            assert(b.handed_at@.subrange(0, a.handed@.len() as int)[k] == b.handed_at@[k]);
        }
    }

    proof fn lemma_moved_nowhere(a: Decoder, out: Seq<u8>)
        requires
            a.sound(),
        ensures
            Self::moved(a, a, out, out),
    {
        assert(a.done@.subrange(0, a.done@.len() as int) =~= a.done@);
        assert(out.subrange(0, out.len() as int) =~= out);
        assert(a.handed@.subrange(0, a.handed@.len() as int) =~= a.handed@);
        assert(a.handed_at@.subrange(0, a.handed@.len() as int) =~= a.handed_at@);
    }

    /// What a failure in the middle of decoding looks like.
    spec fn failed_with(after: Decoder, e: Error) -> bool {
        &&& after.phase == Phase::Failed
        &&& e.class() == Category::CorruptInput
        &&& e matches Error::Corrupt { member, .. } && member == clipped(after.done@.len())
    }

    /// What one step does to the decoder and to the output.
    spec fn stepped(
        before: Decoder,
        after: Decoder,
        out_before: Seq<u8>,
        out_after: Seq<u8>,
        cursor: usize,
        budget: u32,
        step: Result<Step, Error>,
    ) -> bool {
        &&& Self::moved(before, after, out_before, out_after)
        &&& match step {
            Err(e) => Self::failed_with(after, e),
            Ok(s) => {
                &&& after.mid(s.cursor as int)
                &&& after.phase == Phase::Boundary ==> !s.running && s.cursor
                    == after.pending@.len() && after.done@.len() > 0
                &&& !s.running ==> after.settled(s.cursor as int)
                &&& s.cursor > cursor || (s.cursor == cursor && (s.budget < budget || (s.budget
                    == budget && !s.running)))
            },
        }
    }

    fn step_header(&mut self, cursor: usize, budget: u32, Ghost(out): Ghost<Seq<u8>>) -> (step:
        Result<Step, Error>)
        requires
            old(self).mid(cursor as int),
            old(self).phase == Phase::Header,
        ensures
            Self::stepped(*old(self), *final(self), out, out, cursor, budget, step),
            Self::header_step(*old(self), *final(self), cursor, budget, step),
    {
        proof {
            Self::lemma_moved_nowhere(*self, out);
        }
        let rest = slice_subrange(self.pending.as_slice(), cursor, self.pending.len());
        match read_header(rest, &self.table) {
            Ok(n) => {
                self.phase = Phase::Body;
                Ok(Step { cursor: cursor + n, budget, running: true })
            },
            Err(kind) => match kind {
                CorruptKind::TruncatedHeader => Ok(Step { cursor, budget, running: false }),
                _ => {
                    let e = self.corrupt(kind, cursor);
                    self.phase = Phase::Failed;
                    Err(e)
                },
            },
        }
    }

    /// What is fixed of a step that reads a header: where the header is
    /// complete the deflate data comes next, where it is incomplete the step
    /// stops, and where it is malformed the step fails with its fault.
    spec fn header_step(
        before: Decoder,
        after: Decoder,
        cursor: usize,
        budget: u32,
        step: Result<Step, Error>,
    ) -> bool {
        &&& after.handed@ == before.handed@
        &&& after.done@ == before.done@
        &&& match parse_header(before.pending@.skip(cursor as int)) {
            Ok(n) => (step matches Ok(s) && s.cursor == cursor + n && s.budget == budget
                && s.running) && after.phase == Phase::Body,
            Err(kind) => if kind == CorruptKind::TruncatedHeader {
                step == Ok::<Step, Error>(Step { cursor, budget, running: false }) && after.phase
                    == Phase::Header
            } else {
                step == Err::<Step, Error>(
                    Error::Corrupt {
                        kind,
                        member: clipped(before.done@.len()),
                        offset: clipped((before.taken@ + cursor) as nat),
                    },
                )
            },
        }
    }

    /// What is fixed of a step that reads a trailer: where it is incomplete
    /// the step stops, where it does not match the step fails with its
    /// fault, and where it matches the member is done.
    spec fn trailer_step(
        before: Decoder,
        after: Decoder,
        cursor: usize,
        budget: u32,
        step: Result<Step, Error>,
    ) -> bool {
        &&& after.handed@ == before.handed@
        &&& before.pending@.len() - cursor < 8 ==> step == Ok::<Step, Error>(
            Step { cursor, budget, running: false },
        ) && after.phase == Phase::Trailer && after.done@ == before.done@
        &&& before.pending@.len() - cursor >= 8 ==> match trailer_fault(
            before.pending@.skip(cursor as int),
            before.current@,
        ) {
            Some((kind, at)) => step == Err::<Step, Error>(
                Error::Corrupt {
                    kind,
                    member: clipped(before.done@.len()),
                    offset: clipped((before.taken@ + cursor + at) as nat),
                },
            ),
            None => (step matches Ok(s) && s.cursor == cursor + 8 && s.budget == budget
                && s.running == (cursor + 8 != before.pending@.len())) && after.done@
                == before.done@.push(before.current@) && after.phase == (if cursor
                + 8 == before.pending@.len() {
                Phase::Boundary
            } else {
                Phase::Header
            }),
        }
    }

    /// What is fixed of a step that runs the inflater: it is handed all the
    /// bytes that are held and not yet used.
    spec fn body_step(before: Decoder, after: Decoder, cursor: usize) -> bool {
        &&& after.handed@ == before.handed@.push(before.pending@.skip(cursor as int))
        &&& after.handed_at@ == before.handed_at@.push((before.taken@ + cursor) as nat)
    }

    /// Notes what the inflater is about to be handed.
    fn note_handed(&mut self, cursor: usize, Ghost(out): Ghost<Seq<u8>>)
        requires
            old(self).mid(cursor as int),
            old(self).phase == Phase::Body,
        ensures
            final(self).mid(cursor as int),
            final(self).phase == Phase::Body,
            Self::moved(*old(self), *final(self), out, out),
            Self::body_step(*old(self), *final(self), cursor),
    {
        proof {
            Self::lemma_moved_nowhere(*self, out);
            let piece = self.pending@.skip(cursor as int);
            let at = (self.taken@ + cursor) as nat;
            assert(self.fed@.subrange(at as int, (at + piece.len()) as int) =~= piece);
            self.handed@ = self.handed@.push(piece);
            self.handed_at@ = self.handed_at@.push(at);
            assert(self.handed@.subrange(0, old(self).handed@.len() as int) =~= old(self).handed@);
            assert(self.handed_at@.subrange(0, old(self).handed@.len() as int)
                =~= old(self).handed_at@);
        }
    }

    fn step_body(&mut self, cursor: usize, budget: u32, out: &mut Vec<u8>) -> (step: Result<
        Step,
        Error,
    >)
        requires
            old(self).mid(cursor as int),
            old(self).phase == Phase::Body,
        ensures
            Self::stepped(*old(self), *final(self), old(out)@, final(out)@, cursor, budget, step),
            Self::body_step(*old(self), *final(self), cursor),
    {
        self.note_handed(cursor, Ghost(out@));
        let ghost noted = *self;
        proof {
            Self::lemma_moved_nowhere(noted, out@);
        }
        let before: u64 = inflater_total_in(&self.engine);
        let mut scratch: Vec<u8> = Vec::with_capacity(SCRATCH_LEN);
        let available: usize = self.pending.len() - cursor;
        let rest = slice_subrange(self.pending.as_slice(), cursor, self.pending.len());
        proof {
            assert(rest@ =~= self.pending@.skip(cursor as int));
        }
        let status = match inflater_run(&mut self.engine, rest, &mut scratch) {
            Ok(progress) => Some(progress),
            Err(_) => None,
        };
        let after: u64 = inflater_total_in(&self.engine);
        let sums = StreamState { crc: self.crc, len: self.len };
        let next = absorb_run(
            sums,
            status,
            before,
            after,
            available,
            scratch.as_slice(),
            budget,
            &self.table,
            out,
        );
        let (sums, advance) = match next {
            Some(pair) => pair,
            None => {
                let e = self.corrupt(CorruptKind::BadDeflate, cursor);
                self.phase = Phase::Failed;
                proof {
                    Self::lemma_moved_twice(*old(self), noted, *self, out@, out@, out@);
                }
                return Err(e);
            },
        };
        proof {
            lemma_crc32_update_concat(self.current@, scratch@);
            let a = self.current@.len() as int;
            let b = scratch@.len() as int;
            assert(((a % 0x1_0000_0000) + b) % 0x1_0000_0000 == (a + b) % 0x1_0000_0000);
        }
        self.crc = sums.crc;
        self.len = sums.len;
        proof {
            self.current@ = self.current@ + scratch@;
            assert(out@.skip(old(out)@.len() as int) =~= scratch@);
            assert(out@.subrange(0, old(out)@.len() as int) =~= old(out)@);
            assert(self.done@.flatten() + (noted.current@ + scratch@) =~= (self.done@.flatten()
                + noted.current@) + scratch@);
        }
        if advance.ended {
            self.phase = Phase::Trailer;
        }
        proof {
            Self::lemma_moved_twice(*old(self), noted, *self, old(out)@, old(out)@, out@);
        }
        Ok(
            Step {
                cursor: cursor + advance.consumed,
                budget: advance.budget,
                running: advance.running,
            },
        )
    }

    fn step_trailer(&mut self, cursor: usize, budget: u32, Ghost(out): Ghost<Seq<u8>>) -> (step:
        Result<Step, Error>)
        requires
            old(self).mid(cursor as int),
            old(self).phase == Phase::Trailer,
        ensures
            Self::stepped(*old(self), *final(self), out, out, cursor, budget, step),
            Self::trailer_step(*old(self), *final(self), cursor, budget, step),
    {
        proof {
            Self::lemma_moved_nowhere(*self, out);
        }
        if self.pending.len() - cursor < 8 {
            return Ok(Step { cursor, budget, running: false });
        }
        let crc: u32 = read_le32(self.pending.as_slice(), cursor);
        let len: u32 = read_le32(self.pending.as_slice(), cursor + 4);
        if crc != self.crc {
            let e = self.corrupt(CorruptKind::ChecksumMismatch, cursor);
            self.phase = Phase::Failed;
            return Err(e);
        }
        if len != self.len {
            let e = self.corrupt(CorruptKind::LengthMismatch, cursor + 4);
            self.phase = Phase::Failed;
            return Err(e);
        }
        proof {
            let buffer = self.pending@;
            let first = buffer.subrange(cursor as int, cursor + 4);
            let second = buffer.subrange(cursor + 4, cursor + 8);
            lemma_from_le32_round_trip(first);
            lemma_from_le32_round_trip(second);
            let end = (self.taken@ + cursor + 8) as nat;
            assert(self.fed@.subrange(end - 8, end as int) =~= first + second);
            let data = self.current@;
            let ends_before = self.ends@;
            let done_before = self.done@;
            done_before.lemma_flatten_push(data);
            self.done@ = done_before.push(data);
            self.ends@ = ends_before.push(end);
            self.current@ = Seq::empty();
            lemma_crc32_empty();
            assert(self.done@.subrange(0, done_before.len() as int) =~= done_before);
        }
        self.crc = 0;
        self.len = 0;
        self.engine = inflater_new();
        if self.member < usize::MAX {
            self.member = self.member + 1;
        }
        let next: usize = cursor + 8;
        if next == self.pending.len() {
            self.phase = Phase::Boundary;
            Ok(Step { cursor: next, budget, running: false })
        } else {
            self.phase = Phase::Header;
            Ok(Step { cursor: next, budget, running: true })
        }
    }

    /// What a step leaves behind is fit to go on from.
    spec fn resumable(after: Decoder, step: Result<Step, Error>) -> bool {
        match step {
            Err(e) => Self::failed_with(after, e),
            Ok(s) => {
                &&& after.mid(s.cursor as int)
                &&& after.phase == Phase::Boundary ==> !s.running && s.cursor
                    == after.pending@.len() && after.done@.len() > 0
                &&& !s.running ==> after.settled(s.cursor as int)
            },
        }
    }

    /// What is owed once the decoder stands at a header, `cursor` bytes
    /// into `pending`: see `at_header`.
    spec fn header_owed(
        pending: Seq<u8>,
        taken: nat,
        runs: nat,
        members: nat,
        cursor: usize,
        budget: u32,
        after: Decoder,
        step: Result<Step, Error>,
        quiet: bool,
    ) -> bool {
        match parse_header(pending.skip(cursor as int)) {
            Ok(n) => {
                &&& runs < after.handed@.len()
                &&& after.handed@[runs as int] == pending.skip(cursor + n)
                &&& after.handed_at@[runs as int] == taken + cursor + n
            },
            Err(kind) => if kind == CorruptKind::TruncatedHeader {
                step == Ok::<Step, Error>(Step { cursor, budget, running: false }) && after.phase
                    == Phase::Header && quiet
            } else {
                step == Err::<Step, Error>(
                    Error::Corrupt {
                        kind,
                        member: clipped(members),
                        offset: clipped((taken + cursor) as nat),
                    },
                )
            },
        }
    }

    /// What is owed once the decoder stands at a trailer, `cursor` bytes
    /// into what `before` holds: see `at_trailer`.
    spec fn trailer_owed(
        before: Decoder,
        cursor: usize,
        budget: u32,
        after: Decoder,
        step: Result<Step, Error>,
        quiet: bool,
    ) -> bool {
        let rest = before.pending@.skip(cursor as int);
        let members = before.done@.len();
        if rest.len() < 8 {
            step == Ok::<Step, Error>(Step { cursor, budget, running: false }) && after.phase
                == Phase::Trailer && quiet
        } else {
            match trailer_fault(rest, before.current@) {
                Some((kind, at)) => step == Err::<Step, Error>(
                    Error::Corrupt {
                        kind,
                        member: clipped(members),
                        offset: clipped((before.taken@ + cursor + at) as nat),
                    },
                ),
                None => {
                    &&& members < after.done@.len()
                    &&& after.done@[members as int] == before.current@
                    &&& if rest.len() == 8 {
                        (step matches Ok(s) && s.cursor == cursor + 8 && !s.running)
                            && after.phase == Phase::Boundary && quiet
                    } else {
                        Self::header_owed(
                            before.pending@,
                            before.taken@,
                            before.handed@.len(),
                            members + 1,
                            (cursor + 8) as usize,
                            budget,
                            after,
                            step,
                            quiet,
                        )
                    }
                },
            }
        }
    }

    /// Reads a header and, where it is complete, runs the inflater once on
    /// what follows it.
    fn from_header(&mut self, cursor: usize, budget: u32, out: &mut Vec<u8>) -> (step: Result<
        Step,
        Error,
    >)
        requires
            old(self).mid(cursor as int),
            old(self).phase == Phase::Header,
        ensures
            Self::moved(*old(self), *final(self), old(out)@, final(out)@),
            Self::resumable(*final(self), step),
            Self::header_owed(
                old(self).pending@,
                old(self).taken@,
                old(self).handed@.len(),
                old(self).done@.len(),
                cursor,
                budget,
                *final(self),
                step,
                final(out)@ == old(out)@,
            ),
    {
        let first = self.step_header(cursor, budget, Ghost(out@));
        let ghost read = *self;
        let start = match first {
            Ok(start) => start,
            Err(e) => {
                return Err(e);
            },
        };
        if !start.running {
            return Ok(start);
        }
        proof {
            crate::member::lemma_header_bounds(old(self).pending@.skip(cursor as int));
        }
        let second = self.step_body(start.cursor, start.budget, out);
        proof {
            Self::lemma_moved_twice(*old(self), read, *self, old(out)@, old(out)@, out@);
            let n = parse_header(old(self).pending@.skip(cursor as int))->Ok_0;
            assert(self.handed@[old(self).handed@.len() as int] =~= old(self).pending@.skip(
                cursor + n,
            ));
        }
        second
    }

    /// Reads a trailer and, where it matches and more bytes are held, goes
    /// on with the header of the member that follows.
    fn from_trailer(&mut self, cursor: usize, budget: u32, out: &mut Vec<u8>) -> (step: Result<
        Step,
        Error,
    >)
        requires
            old(self).mid(cursor as int),
            old(self).phase == Phase::Trailer,
        ensures
            Self::moved(*old(self), *final(self), old(out)@, final(out)@),
            Self::resumable(*final(self), step),
            Self::trailer_owed(
                *old(self),
                cursor,
                budget,
                *final(self),
                step,
                final(out)@ == old(out)@,
            ),
    {
        let first = self.step_trailer(cursor, budget, Ghost(out@));
        let ghost checked = *self;
        let start = match first {
            Ok(start) => start,
            Err(e) => {
                return Err(e);
            },
        };
        if !start.running {
            return Ok(start);
        }
        let second = self.from_header(start.cursor, start.budget, out);
        proof {
            Self::lemma_moved_twice(*old(self), checked, *self, old(out)@, old(out)@, out@);
            Self::lemma_moved_keeps(checked, *self, old(out)@, out@);
        }
        second
    }

    /// How a call to `feed` ends after its first steps: `stepped` is the
    /// decoder after them and `step` what they came to, `last` and `fed`
    /// are the decoder and the result at the end of the call.
    spec fn concluded(
        stepped: Decoder,
        step: Result<Step, Error>,
        quiet_then: bool,
        last: Decoder,
        fed: Result<(), Error>,
        quiet: bool,
    ) -> bool {
        &&& stepped.handed@.len() <= last.handed@.len()
        &&& forall|k: int|
            0 <= k < stepped.handed@.len() ==> #[trigger] last.handed@[k] == stepped.handed@[k]
        &&& forall|k: int|
            0 <= k < stepped.handed@.len() ==> #[trigger] last.handed_at@[k]
                == stepped.handed_at@[k]
        &&& stepped.done@.len() <= last.done@.len()
        &&& forall|i: int| 0 <= i < stepped.done@.len() ==> #[trigger] last.done@[i] == stepped.done@[i]
        &&& match step {
            Err(e) => fed == Err::<(), Error>(e),
            Ok(s) => !s.running ==> fed is Ok && last.phase == stepped.phase && last.pending@
                == stepped.pending@.skip(s.cursor as int) && (quiet_then ==> quiet),
        }
    }

    proof fn lemma_header_concluded(
        pending: Seq<u8>,
        taken: nat,
        runs: nat,
        members: nat,
        cursor: usize,
        budget: u32,
        stepped: Decoder,
        step: Result<Step, Error>,
        quiet_then: bool,
        last: Decoder,
        fed: Result<(), Error>,
        quiet: bool,
    )
        requires
            cursor <= pending.len(),
            stepped.pending@ == pending,
            Self::header_owed(pending, taken, runs, members, cursor, budget, stepped, step, quiet_then),
            Self::concluded(stepped, step, quiet_then, last, fed, quiet),
        ensures
            last.at_header(
                pending.skip(cursor as int),
                (taken + cursor) as nat,
                members,
                runs,
                quiet,
                fed,
            ),
    {
        let rest = pending.skip(cursor as int);
        crate::member::lemma_header_bounds(rest);
        if parse_header(rest) is Ok {
            let n = parse_header(rest)->Ok_0;
            assert(rest.skip(n as int) =~= pending.skip(cursor + n));
            assert(last.handed@[runs as int] == stepped.handed@[runs as int]);
            assert(last.handed_at@[runs as int] == stepped.handed_at@[runs as int]);
        }
    }

    proof fn lemma_trailer_concluded(
        before: Decoder,
        budget: u32,
        stepped: Decoder,
        step: Result<Step, Error>,
        quiet_then: bool,
        last: Decoder,
        fed: Result<(), Error>,
        quiet: bool,
    )
        requires
            stepped.pending@ == before.pending@,
            Self::trailer_owed(before, 0, budget, stepped, step, quiet_then),
            Self::concluded(stepped, step, quiet_then, last, fed, quiet),
        ensures
            last.at_trailer(
                before.pending@,
                before.current@,
                before.taken@,
                before.done@.len(),
                before.handed@.len(),
                quiet,
                fed,
            ),
    {
        let rest = before.pending@;
        assert(rest.skip(0) =~= rest);
        if rest.len() >= 8 && trailer_fault(rest, before.current@) is None {
            let members = before.done@.len() as int;
            assert(last.done@[members] == stepped.done@[members]);
            if rest.len() > 8 {
                Self::lemma_header_concluded(
                    rest,
                    before.taken@,
                    before.handed@.len(),
                    (members + 1) as nat,
                    8,
                    budget,
                    stepped,
                    step,
                    quiet_then,
                    last,
                    fed,
                    quiet,
                );
            }
        }
    }

    /// Decodes on from `start` until what is held is used up or cannot be
    /// used yet. Returns how many of the held bytes have been used.
    fn drain(&mut self, start: Step, out: &mut Vec<u8>) -> (end: Result<usize, Error>)
        requires
            old(self).mid(start.cursor as int),
            old(self).phase == Phase::Boundary ==> !start.running
                && start.cursor == old(self).pending@.len() && old(self).done@.len() > 0,
            !start.running ==> old(self).settled(start.cursor as int),
        ensures
            Self::moved(*old(self), *final(self), old(out)@, final(out)@),
            !start.running ==> end == Ok::<usize, Error>(start.cursor)
                && final(self).phase == old(self).phase && final(out)@ == old(out)@,
            match end {
                Err(e) => Self::failed_with(*final(self), e),
                Ok(cursor) => {
                    &&& final(self).mid(cursor as int)
                    &&& final(self).settled(cursor as int)
                    &&& final(self).phase == Phase::Boundary
                        ==> cursor == final(self).pending@.len() && final(self).done@.len() > 0
                },
            },
    {
        proof {
            Self::lemma_moved_nowhere(*self, out@);
        }
        if !start.running {
            return Ok(start.cursor);
        }
        let mut cursor: usize = start.cursor;
        let mut budget: u32 = start.budget;
        let mut running: bool = true;
        while running
            invariant
                start.running,
                Self::moved(*old(self), *self, old(out)@, out@),
                self.mid(cursor as int),
                self.phase == Phase::Boundary ==> !running && cursor == self.pending@.len()
                    && self.done@.len() > 0,
                !running ==> self.settled(cursor as int),
            decreases self.pending@.len() - cursor, budget, (if running {
                    1int
                } else {
                    0int
                }),
        {
            let ghost before = *self;
            let ghost out_before = out@;
            let step = match self.phase {
                Phase::Header => self.step_header(cursor, budget, Ghost(out@)),
                Phase::Body => self.step_body(cursor, budget, out),
                Phase::Trailer => self.step_trailer(cursor, budget, Ghost(out@)),
                _ => Ok(Step { cursor, budget, running: false }),
            };
            proof {
                Self::lemma_moved_twice(*old(self), before, *self, old(out)@, out_before, out@);
            }
            match step {
                Ok(s) => {
                    cursor = s.cursor;
                    budget = s.budget;
                    running = s.running;
                },
                Err(e) => {
                    return Err(e);
                },
            }
        }
        Ok(cursor)
    }

    /// Takes in the next piece of the stream and appends to `out` the bytes
    /// that can be decoded from what has arrived. After a failure the
    /// decoder stays failed.
    ///
    /// Where the inflater has no say the outcome is fixed: an empty piece
    /// changes nothing, and what a header or a trailer comes to is what
    /// `at_header` and `at_trailer` say. Inside deflate data the inflater
    /// decides. There the call fixes what the inflater is handed, all the
    /// bytes fed and not yet used (`was_handed`), and `judged` says what is
    /// made of each of its runs.
    pub fn feed(&mut self, chunk: &[u8], out: &mut Vec<u8>) -> (fed: Result<(), Error>)
        requires
            old(self).wf(),
        ensures
            final(self).wf(),
            old(out)@.len() <= final(out)@.len(),
            final(out)@.subrange(0, old(out)@.len() as int) == old(out)@,
            final(self).produced() == old(self).produced() + final(out)@.skip(
                old(out)@.len() as int,
            ),
            old(self).members().len() <= final(self).members().len(),
            final(self).members().subrange(0, old(self).members().len() as int)
                == old(self).members(),
            fed is Err <==> final(self).phase() == Phase::Failed,
            old(self).phase() == Phase::Failed ==> (fed matches Err(e) && e == Error::InvalidState)
                && final(self).fed() == old(self).fed(),
            old(self).phase() != Phase::Failed ==> final(self).fed() == old(self).fed() + chunk@
                && (fed matches Err(e) ==> e.class() == Category::CorruptInput && (
            e matches Error::Corrupt { member, .. } && member == clipped(
                final(self).members().len(),
            ))),
            old(self).phase() != Phase::Failed && chunk@.len() == 0 ==> fed is Ok
                && final(self).phase() == old(self).phase()
                && final(self).held_bytes() == old(self).held_bytes()
                && final(out)@ == old(out)@,
            (old(self).phase() == Phase::Header || old(self).phase() == Phase::Boundary)
                && chunk@.len() > 0 ==> final(self).at_header(
                old(self).held_bytes() + chunk@,
                old(self).consumed(),
                old(self).members().len(),
                old(self).handed().len(),
                final(out)@ == old(out)@,
                fed,
            ),
            old(self).phase() == Phase::Trailer && chunk@.len() > 0 ==> final(self).at_trailer(
                old(self).held_bytes() + chunk@,
                old(self).current(),
                old(self).consumed(),
                old(self).members().len(),
                old(self).handed().len(),
                final(out)@ == old(out)@,
                fed,
            ),
            old(self).phase() == Phase::Body && chunk@.len() > 0 ==> final(self).was_handed(
                old(self).handed().len(),
                chunk@,
                old(self).consumed(),
            ),
            old(self).handed().len() <= final(self).handed().len(),
            final(self).handed().subrange(0, old(self).handed().len() as int)
                == old(self).handed(),
            final(self).handed_at().subrange(0, old(self).handed().len() as int)
                == old(self).handed_at(),
    {
        proof {
            Self::lemma_moved_nowhere(*self, out@);
        }
        match self.phase {
            Phase::Failed => {
                return Err(Error::InvalidState);
            },
            _ => {},
        }
        if chunk.len() == 0 {
            return Ok(());
        }
        self.take_in(chunk);
        let ghost taken_in = *self;
        let ghost buffer = self.pending@;
        proof {
            assert(buffer.skip(0) =~= buffer);
            if old(self).phase == Phase::Body {
                assert(buffer =~= chunk@);
            }
            Self::lemma_moved_nowhere(*self, out@);
        }
        let first = match self.phase {
            Phase::Header => self.from_header(0, STALL_LIMIT, out),
            Phase::Body => self.step_body(0, STALL_LIMIT, out),
            Phase::Trailer => self.from_trailer(0, STALL_LIMIT, out),
            _ => Ok(Step { cursor: 0, budget: STALL_LIMIT, running: false }),
        };
        let ghost stepped = *self;
        let ghost out_then = out@;
        let ghost quiet_then = out@ == old(out)@;
        let start = match first {
            Ok(s) => s,
            Err(e) => {
                proof {
                    Self::lemma_feed_owed(
                        *old(self),
                        chunk@,
                        taken_in,
                        stepped,
                        first,
                        quiet_then,
                        *self,
                        Err(e),
                        quiet_then,
                    );
                }
                return Err(e);
            },
        };
        let cursor = match self.drain(start, out) {
            Ok(cursor) => cursor,
            Err(e) => {
                proof {
                    Self::lemma_moved_twice(taken_in, stepped, *self, old(out)@, out_then, out@);
                    Self::lemma_moved_keeps(stepped, *self, out_then, out@);
                    Self::lemma_feed_owed(
                        *old(self),
                        chunk@,
                        taken_in,
                        stepped,
                        first,
                        quiet_then,
                        *self,
                        Err(e),
                        out@ == old(out)@,
                    );
                }
                return Err(e);
            },
        };
        proof {
            Self::lemma_moved_twice(taken_in, stepped, *self, old(out)@, out_then, out@);
            Self::lemma_moved_keeps(stepped, *self, out_then, out@);
        }
        self.let_go(cursor);
        proof {
            Self::lemma_feed_owed(
                *old(self),
                chunk@,
                taken_in,
                stepped,
                first,
                quiet_then,
                *self,
                Ok(()),
                out@ == old(out)@,
            );
        }
        Ok(())
    }

    /// From what the first steps of a call owe and how the call ended, what
    /// the call owes in public.
    proof fn lemma_feed_owed(
        before: Decoder,
        chunk: Seq<u8>,
        taken_in: Decoder,
        stepped: Decoder,
        step: Result<Step, Error>,
        quiet_then: bool,
        last: Decoder,
        fed: Result<(), Error>,
        quiet: bool,
    )
        requires
            before.wf(),
            chunk.len() > 0,
            taken_in.pending@ == before.pending@ + chunk,
            taken_in.taken@ == before.taken@,
            taken_in.done@ == before.done@,
            taken_in.current@ == before.current@,
            taken_in.handed@ == before.handed@,
            taken_in.handed_at@ == before.handed_at@,
            stepped.pending@ == taken_in.pending@,
            before.phase == Phase::Header || before.phase == Phase::Boundary ==> Self::header_owed(
                taken_in.pending@,
                taken_in.taken@,
                taken_in.handed@.len(),
                taken_in.done@.len(),
                0,
                STALL_LIMIT,
                stepped,
                step,
                quiet_then,
            ),
            before.phase == Phase::Trailer ==> Self::trailer_owed(
                taken_in,
                0,
                STALL_LIMIT,
                stepped,
                step,
                quiet_then,
            ),
            before.phase == Phase::Body ==> Self::body_step(taken_in, stepped, 0),
            Self::concluded(stepped, step, quiet_then, last, fed, quiet),
        ensures
            before.phase == Phase::Header || before.phase == Phase::Boundary ==> last.at_header(
                before.held_bytes() + chunk,
                before.consumed(),
                before.members().len(),
                before.handed().len(),
                quiet,
                fed,
            ),
            before.phase == Phase::Trailer ==> last.at_trailer(
                before.held_bytes() + chunk,
                before.current(),
                before.consumed(),
                before.members().len(),
                before.handed().len(),
                quiet,
                fed,
            ),
            before.phase == Phase::Body ==> last.was_handed(
                before.handed().len(),
                chunk,
                before.consumed(),
            ),
    {
        let pending = taken_in.pending@;
        assert(pending.skip(0) =~= pending);
        if before.phase == Phase::Header || before.phase == Phase::Boundary {
            Self::lemma_header_concluded(
                pending,
                taken_in.taken@,
                taken_in.handed@.len(),
                taken_in.done@.len(),
                0,
                STALL_LIMIT,
                stepped,
                step,
                quiet_then,
                last,
                fed,
                quiet,
            );
        } else if before.phase == Phase::Trailer {
            Self::lemma_trailer_concluded(
                taken_in,
                STALL_LIMIT,
                stepped,
                step,
                quiet_then,
                last,
                fed,
                quiet,
            );
        } else if before.phase == Phase::Body {
            let runs = before.handed@.len() as int;
            assert(pending =~= chunk);
            assert(last.handed@[runs] == stepped.handed@[runs]);
            assert(last.handed_at@[runs] == stepped.handed_at@[runs]);
        }
    }

    /// Adds `chunk` to what is held. A decoder that stood at a boundary now
    /// stands at the header of the next member.
    fn take_in(&mut self, chunk: &[u8])
        requires
            old(self).wf(),
            old(self).phase != Phase::Failed,
            chunk@.len() > 0,
        ensures
            final(self).mid(0),
            final(self).pending@ == old(self).pending@ + chunk@,
            final(self).fed@ == old(self).fed@ + chunk@,
            final(self).taken@ == old(self).taken@,
            final(self).done@ == old(self).done@,
            final(self).current@ == old(self).current@,
            final(self).handed@ == old(self).handed@,
            final(self).handed_at@ == old(self).handed_at@,
            final(self).phase == (if old(self).phase == Phase::Boundary {
                Phase::Header
            } else {
                old(self).phase
            }),
            final(self).phase != Phase::Boundary,
    {
        append(&mut self.pending, chunk);
        proof {
            let before = self.fed@;
            self.fed@ = before + chunk@;
            assert(self.fed@.skip(self.taken@ as int) =~= self.pending@);
            assert forall|i: int| 0 <= i < self.ends@.len() implies trailer_matches(
                self.fed@,
                #[trigger] self.ends@[i],
                self.done@[i],
            ) by {
                let end = self.ends@[i];
                assert(self.fed@.subrange(end - 8, end as int) =~= before.subrange(
                    end - 8,
                    end as int,
                ));
            }
            assert forall|k: int| 0 <= k < self.handed@.len() implies lies_at(
                self.fed@,
                self.handed_at@[k],
                #[trigger] self.handed@[k],
            ) by {
                let at = self.handed_at@[k] as int;
                let len = self.handed@[k].len() as int;
                assert(lies_at(before, self.handed_at@[k], self.handed@[k]));
                assert(self.fed@.subrange(at, at + len) =~= before.subrange(at, at + len));
            }
        }
        match self.phase {
            Phase::Boundary => {
                self.phase = Phase::Header;
            },
            _ => {},
        }
    }

    /// Drops the first `cursor` bytes of what is held: they have been used.
    fn let_go(&mut self, cursor: usize)
        requires
            old(self).mid(cursor as int),
            old(self).settled(cursor as int),
            old(self).phase == Phase::Boundary ==> cursor == old(self).pending@.len()
                && old(self).done@.len() > 0,
        ensures
            final(self).wf(),
            final(self).phase == old(self).phase,
            final(self).pending@ == old(self).pending@.skip(cursor as int),
            final(self).fed@ == old(self).fed@,
            final(self).done@ == old(self).done@,
            final(self).current@ == old(self).current@,
            final(self).handed@ == old(self).handed@,
            final(self).handed_at@ == old(self).handed_at@,
    {
        let rest = self.pending.split_off(cursor);
        self.pending = rest;
        self.position = if self.position > usize::MAX - cursor {
            usize::MAX
        } else {
            self.position + cursor
        };
        proof {
            self.taken@ = (self.taken@ + cursor) as nat;
            assert(self.fed@.skip(self.taken@ as int) =~= self.pending@);
        }
    }

    /// Ends the stream. The end is clean only just after a member that has
    /// passed its checks; anywhere else the stream is cut short.
    pub fn finish(&self) -> (end: Result<(), Error>)
        requires
            self.wf(),
        ensures
            end is Ok <==> self.phase() == Phase::Boundary,
            self.phase() == Phase::Failed ==> (end matches Err(e) && e == Error::InvalidState),
            self.phase() != Phase::Failed && self.phase() != Phase::Boundary ==> end == Err::<
                (),
                Error,
            >(
                Error::Corrupt {
                    kind: unfinished(self.phase()),
                    member: clipped(self.members().len()),
                    offset: clipped((self.fed().len() - self.held()) as nat),
                },
            ),
    {
        match self.phase {
            Phase::Boundary => Ok(()),
            Phase::Failed => Err(Error::InvalidState),
            Phase::Header => Err(self.corrupt(CorruptKind::TruncatedHeader, 0)),
            Phase::Body => Err(self.corrupt(CorruptKind::BadDeflate, 0)),
            Phase::Trailer => Err(self.corrupt(CorruptKind::TruncatedTrailer, 0)),
        }
    }
}

} // verus!
