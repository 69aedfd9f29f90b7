//! Cutting buffers of CSV bytes into chunks that end at record ends.

use std::ops::Range;
use std::sync::Arc;

use vstd::prelude::*;
use vstd::slice::slice_subrange;
use vstd::slice::slice_to_vec;

use crate::finite_automata::FindARecordEndError;
use crate::finite_automata::FiniteAutomata;
use crate::finite_automata::Nfa;
use crate::finite_automata::Offset;
use crate::finite_automata::ParserConfig;
use crate::finite_automata::SearchOutcome;
use crate::search_laws::law_found_after_good_scans;

verus! {

/// The room that a buffer has.
pub const SIZE_1_MIB: usize = 1024 * 1024;

/// About the size of a chunk: a buffer is cut as long as it holds this much.
pub const SIZE_128_KIB: usize = 1024 * 128;

/// How far before that size the search for the end of a chunk starts.
pub const SIZE_4_KIB: usize = 1024 * 4;

/// What can be read as bytes.
pub trait AsBytes {
    /// Whether there are bytes to be read.
    spec fn is_readable(&self) -> bool;

    /// The bytes.
    spec fn bytes(&self) -> Seq<u8>;

    /// Reads the bytes.
    fn as_bytes(&self) -> (r: &[u8])
        requires
            self.is_readable(),
        ensures
            r@ == self.bytes(),
    ;
}

impl AsBytes for [u8] {
    open spec fn is_readable(&self) -> bool {
        true
    }

    open spec fn bytes(&self) -> Seq<u8> {
        self@
    }

    fn as_bytes(&self) -> (r: &[u8]) {
        self
    }
}

impl AsBytes for Vec<u8> {
    open spec fn is_readable(&self) -> bool {
        true
    }

    open spec fn bytes(&self) -> Seq<u8> {
        self@
    }

    fn as_bytes(&self) -> (r: &[u8]) {
        self.as_slice()
    }
}

/// A range of a shared buffer.
pub struct WorkChunk<B: AsBytes + ?Sized> {
    pub buffer: Arc<B>,
    pub range: Range<usize>,
}

impl<B: AsBytes + ?Sized> AsBytes for WorkChunk<B> {
    open spec fn is_readable(&self) -> bool {
        &&& self.buffer.is_readable()
        &&& self.range.start <= self.range.end <= self.buffer.bytes().len()
    }

    open spec fn bytes(&self) -> Seq<u8> {
        self.buffer.bytes().subrange(self.range.start as int, self.range.end as int)
    }

    fn as_bytes(&self) -> (r: &[u8]) {
        &self.buffer.as_bytes()[self.range.start..self.range.end]
    }
}

/// Why the queue was not filled.
#[derive(Copy, Clone, Debug, PartialEq, Eq, Structural)]
pub enum FillQueueError {
    /// No record end was found in as many tries as there may be.
    Failed,
}

/// Why a buffer is cut no further.
#[derive(Copy, Clone, Debug, PartialEq, Eq, Structural)]
pub enum PlanEnd {
    /// What is left waits for more input: it is too short to be cut, the search for a
    /// record end ran out of it, or the byte at the record end is not there yet.
    Leftover,
    /// The search for a record end gave up.
    Failed(FillQueueError),
}

/// How a buffer is cut: the bounds of the chunks, the start of what is left, and why
/// it is left.
pub struct Plan {
    pub chunks: Seq<(nat, nat)>,
    pub rest: nat,
    pub end: PlanEnd,
}

impl Plan {
    /// The same plan with chunks before it.
    pub open spec fn after(self, chunks: Seq<(nat, nat)>) -> Plan {
        Plan { chunks: chunks + self.chunks, rest: self.rest, end: self.end }
    }
}

/// Where the search for the end of the chunk that starts at `cur` begins.
pub open spec fn search_start(cur: nat) -> nat {
    (cur + SIZE_128_KIB - SIZE_4_KIB) as nat
}

/// How `buffer` is cut from `cur` on: a chunk ends with the byte at the record end that
/// the search finds. That byte is the terminator, or the one behind it where a `\r` ends
/// the record.
pub open spec fn plan_from(config: ParserConfig, buffer: Seq<u8>, cur: nat) -> Plan
    decreases buffer.len() - cur,
{
    if buffer.len() - cur < SIZE_128_KIB {
        Plan { chunks: seq![], rest: cur, end: PlanEnd::Leftover }
    } else {
        let start = search_start(cur);
        match config.search_outcome(buffer.skip(start as int)) {
            SearchOutcome::Found(n) => {
                if start + n < buffer.len() {
                    let next = start + n + 1;
                    plan_from(config, buffer, next).after(seq![(cur, next)])
                } else {
                    Plan { chunks: seq![], rest: cur, end: PlanEnd::Leftover }
                }
            },
            SearchOutcome::GaveUp => Plan {
                chunks: seq![],
                rest: cur,
                end: PlanEnd::Failed(FillQueueError::Failed),
            },
            SearchOutcome::Exhausted => Plan { chunks: seq![], rest: cur, end: PlanEnd::Leftover },
        }
    }
}

/// What is left is a part of the buffer.
pub proof fn lemma_plan_rest(config: ParserConfig, buffer: Seq<u8>, cur: nat)
    requires
        cur <= buffer.len(),
    ensures
        cur <= plan_from(config, buffer, cur).rest <= buffer.len(),
    decreases buffer.len() - cur,
{
    if buffer.len() - cur >= SIZE_128_KIB {
        let start = search_start(cur);
        if let SearchOutcome::Found(n) = config.search_outcome(buffer.skip(start as int)) {
            if start + n < buffer.len() {
                lemma_plan_rest(config, buffer, start + n + 1);
            }
        }
    }
}

/// How a buffer is cut.
pub struct ChunkPlan {
    /// The ranges of the chunks.
    pub chunks: Vec<Range<usize>>,
    /// The start of what is left.
    pub rest: usize,
    /// Why it is left.
    pub end: PlanEnd,
}

impl View for ChunkPlan {
    type V = Plan;

    open spec fn view(&self) -> Plan {
        Plan {
            chunks: self.chunks@.map_values(|r: Range<usize>| (r.start as nat, r.end as nat)),
            rest: self.rest as nat,
            end: self.end,
        }
    }
}

/// Cuts `buffer` into chunks that end at record ends.
pub fn plan_chunks(automaton: &Nfa, buffer: &[u8]) -> (plan: ChunkPlan)
    ensures
        plan@ == plan_from(automaton.config, buffer@, 0),
{
    let mut chunks: Vec<Range<usize>> = Vec::new();
    let mut cur_offset: usize = 0;
    let mut end = PlanEnd::Leftover;
    let ghost to_pair = |r: Range<usize>| (r.start as nat, r.end as nat);
    assert(chunks@.map_values(to_pair) + plan_from(automaton.config, buffer@, 0).chunks
        =~= plan_from(automaton.config, buffer@, 0).chunks);
    while buffer.len() - cur_offset >= SIZE_128_KIB
        invariant_except_break
            end == PlanEnd::Leftover,
        invariant
            cur_offset <= buffer@.len(),
            to_pair == (|r: Range<usize>| (r.start as nat, r.end as nat)),
            plan_from(automaton.config, buffer@, 0) == plan_from(
                automaton.config,
                buffer@,
                cur_offset as nat,
            ).after(chunks@.map_values(to_pair)),
        ensures
            plan_from(automaton.config, buffer@, 0) == (Plan {
                chunks: chunks@.map_values(to_pair),
                rest: cur_offset as nat,
                end,
            }),
        decreases buffer@.len() - cur_offset,
    {
        let search_start_offset: usize = cur_offset + SIZE_128_KIB - SIZE_4_KIB;
        let tail = slice_subrange(buffer, search_start_offset, buffer.len());
        let found = automaton.find_a_record_end(tail);
        proof {
            law_found_after_good_scans(automaton.config, tail@);
            assert(chunks@.map_values(to_pair) + Seq::<(nat, nat)>::empty()
                =~= chunks@.map_values(to_pair));
        }
        match found {
            Ok(Offset(end_offset)) => {
                if end_offset == tail.len() {
                    break ;
                }
                let next_offset: usize = search_start_offset + end_offset + 1;
                let ghost before = chunks@;
                chunks.push(cur_offset..next_offset);
                proof {
                    let cut = (cur_offset as nat, next_offset as nat);
                    let others = plan_from(automaton.config, buffer@, next_offset as nat).chunks;
                    assert(chunks@.map_values(to_pair) =~= before.map_values(to_pair) + seq![cut]);
                    assert(before.map_values(to_pair) + (seq![cut] + others)
                        =~= chunks@.map_values(to_pair) + others);
                }
                cur_offset = next_offset;
            },
            Err(FindARecordEndError::ExceededMaxTries) => {
                end = PlanEnd::Failed(FillQueueError::Failed);
                break ;
            },
            Err(FindARecordEndError::InputExhausted) => {
                break ;
            },
        }
    }
    ChunkPlan { chunks, rest: cur_offset, end }
}

/// What to do after a read.
pub enum FillStep {
    /// The input has ended.
    Done,
    /// The buffer is cut so.
    Chunks(ChunkPlan),
}

/// How many bytes a read may add to a buffer that already holds `len` bytes: as many as
/// there is room for in 1 MiB.
pub open spec fn room_behind(len: nat) -> nat {
    if len < SIZE_1_MIB {
        (SIZE_1_MIB - len) as nat
    } else {
        0
    }
}

/// What fills the queue: between reads it keeps the bytes that were read and are not
/// in a chunk yet.
pub struct Producer {
    pub leftover: Vec<u8>,
}

impl Producer {
    /// Before the first read.
    pub fn new() -> (producer: Producer)
        ensures
            producer.leftover@ == Seq::<u8>::empty(),
    {
        Producer { leftover: Vec::new() }
    }

    /// The buffer for the next read, which goes behind what is left.
    pub fn next_buffer(&self) -> (buffer: Vec<u8>)
        ensures
            buffer@ == self.leftover@,
    {
        let mut buffer: Vec<u8> = Vec::with_capacity(SIZE_1_MIB);
        buffer.extend_from_slice(self.leftover.as_slice());
        assert(buffer@ =~= self.leftover@);
        buffer
    }

    /// How many bytes the next read may add to that buffer.
    pub fn room(&self) -> (n: usize)
        ensures
            n == room_behind(self.leftover@.len()),
    {
        if self.leftover.len() < SIZE_1_MIB {
            SIZE_1_MIB - self.leftover.len()
        } else {
            0
        }
    }

    /// What to do with `buffer`, after a read was put behind what was left. Where the
    /// read added nothing, the input has ended.
    pub fn step(&mut self, automaton: &Nfa, buffer: &[u8]) -> (step: FillStep)
        ensures
            match step {
                FillStep::Done => {
                    &&& buffer@.len() == old(self).leftover@.len()
                    &&& final(self).leftover@ == old(self).leftover@
                },
                FillStep::Chunks(plan) => {
                    &&& buffer@.len() != old(self).leftover@.len()
                    &&& plan@ == plan_from(automaton.config, buffer@, 0)
                    &&& final(self).leftover@ == buffer@.skip(plan@.rest as int)
                },
            },
    {
        if buffer.len() == self.leftover.len() {
            return FillStep::Done;
        }
        let plan = plan_chunks(automaton, buffer);
        proof {
            lemma_plan_rest(automaton.config, buffer@, 0);
        }
        self.leftover = slice_to_vec(slice_subrange(buffer, plan.rest, buffer.len()));
        FillStep::Chunks(plan)
    }
}

} // verus!
