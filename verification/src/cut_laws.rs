//! What the calls give that cut a stream into chunks and hand the chunks on.

use std::ops::Range;

use vstd::prelude::*;

use crate::chunk_laws::bytes_of;
use crate::chunk_laws::ends_at_found;
use crate::chunk_laws::joined;
use crate::chunk_laws::law_chunks_and_rest_are_the_buffer;
use crate::chunk_laws::law_leftover_cannot_be_cut;
use crate::chunk_laws::lemma_plan;
use crate::csv_bytes::plan_chunks;
use crate::csv_bytes::plan_from;
use crate::csv_bytes::AsBytes;
use crate::csv_bytes::ChunkPlan;
use crate::csv_bytes::FillStep;
use crate::csv_bytes::Plan;
use crate::csv_bytes::PlanEnd;
use crate::csv_bytes::Producer;
use crate::csv_bytes::WorkChunk;
use crate::finite_automata::Nfa;
use crate::finite_automata::ParserConfig;
use crate::finite_automata::SearchOutcome;
use crate::stream_laws::filled;

verus! {

/// Whether the bytes of `buffer` from `start` to `end` are a chunk: there are 128 KiB or
/// more from `start` on, and the search that starts 124 KiB behind `start` finds a record
/// end whose byte is the last of the chunk.
pub open spec fn is_chunk(config: ParserConfig, buffer: Seq<u8>, start: nat, end: nat) -> bool {
    &&& start + 128 * 1024 <= buffer.len()
    &&& end <= buffer.len()
    &&& end > start + 124 * 1024
    &&& config.search_outcome(buffer.skip((start + 124 * 1024) as int)) == SearchOutcome::Found(
        (end - start - 124 * 1024 - 1) as nat,
    )
}

/// Whether `plan` cuts `buffer`: its chunks follow each other from the start of the buffer
/// to what is left, and what is left is too short, or the search in it ran out of input,
/// or found a record end behind the last byte, or gave up, which is a failure.
pub open spec fn is_cut(config: ParserConfig, buffer: Seq<u8>, plan: ChunkPlan) -> bool {
    let chunks = plan.chunks@;
    let found = config.search_outcome(buffer.skip(plan.rest + 124 * 1024));
    &&& plan.rest <= buffer.len()
    &&& chunks.len() == 0 ==> plan.rest == 0
    &&& chunks.len() > 0 ==> chunks[0].start == 0 && chunks.last().end == plan.rest
    &&& forall|i: int, j: int|
        0 <= i && j == i + 1 && j < chunks.len() ==> (#[trigger] chunks[i]).end == (
        #[trigger] chunks[j]).start
    &&& forall|i: int|
        0 <= i < chunks.len() ==> is_chunk(
            config,
            buffer,
            (#[trigger] chunks[i]).start as nat,
            chunks[i].end as nat,
        )
    &&& match plan.end {
        PlanEnd::Leftover => {
            ||| buffer.len() < plan.rest + 128 * 1024
            ||| found is Exhausted
            ||| found == SearchOutcome::Found((buffer.len() - plan.rest - 124 * 1024) as nat)
        },
        PlanEnd::Failed(_) => buffer.len() >= plan.rest + 128 * 1024 && found is GaveUp,
    }
}

/// The bytes of the chunks of a plan.
pub open spec fn chunk_bytes(buffer: Seq<u8>, plan: ChunkPlan) -> Seq<Seq<u8>> {
    plan.chunks@.map_values(|r: Range<usize>| buffer.subrange(r.start as int, r.end as int))
}

proof fn lemma_is_cut(config: ParserConfig, buffer: Seq<u8>, plan: ChunkPlan)
    requires
        plan@ == plan_from(config, buffer, 0),
    ensures
        is_cut(config, buffer, plan),
        chunk_bytes(buffer, plan) == bytes_of(buffer, plan@.chunks),
{
    lemma_plan(config, buffer, 0);
    let chunks = plan.chunks@;
    let pairs = plan@.chunks;
    assert forall|i: int| 0 <= i < chunks.len() implies is_chunk(
        config,
        buffer,
        (#[trigger] chunks[i]).start as nat,
        chunks[i].end as nat,
    ) by {
        assert(ends_at_found(config, buffer, pairs[i]));
    }
    assert forall|i: int, j: int| 0 <= i && j == i + 1 && j < chunks.len() implies (
    #[trigger] chunks[i]).end == (#[trigger] chunks[j]).start by {
        assert(pairs[i].1 == pairs[j].0);
    }
    if chunks.len() > 0 {
        assert(pairs[0].0 == 0);
        assert(pairs.last().1 == plan.rest);
        assert(pairs.last() == (chunks.last().start as nat, chunks.last().end as nat));
    }
    assert(plan_from(config, buffer, plan.rest as nat) == (Plan {
        chunks: seq![],
        rest: plan.rest as nat,
        end: plan.end,
    }));
    if buffer.len() >= plan.rest + 128 * 1024 && plan.end == PlanEnd::Leftover {
        law_leftover_cannot_be_cut(config, buffer);
    }
    assert(chunk_bytes(buffer, plan) =~= bytes_of(buffer, pairs));
}

/// What `plan_chunks` returns cuts its buffer: each chunk ends where the search says, the
/// cut goes on as long as it can, and it fails only where the search gave up. The chunks
/// and what is left, one after the other, are the buffer.
pub proof fn law_plan_chunks_cuts_the_buffer(nfa: Nfa, buffer: &[u8], plan: ChunkPlan)
    requires
        call_ensures(plan_chunks, (&nfa, buffer), plan),
    ensures
        is_cut(nfa.config, buffer@, plan),
        joined(chunk_bytes(buffer@, plan)) + buffer@.skip(plan.rest as int) == buffer@,
{
    lemma_is_cut(nfa.config, buffer@, plan);
    law_chunks_and_rest_are_the_buffer(nfa.config, buffer@);
}

proof fn lemma_same_chunks(
    config: ParserConfig,
    buffer: Seq<u8>,
    one: ChunkPlan,
    other: ChunkPlan,
    i: int,
)
    requires
        is_cut(config, buffer, one),
        is_cut(config, buffer, other),
        0 <= i < one.chunks@.len(),
    ensures
        i < other.chunks@.len(),
        one.chunks@[i].start == other.chunks@[i].start,
        one.chunks@[i].end == other.chunks@[i].end,
    decreases i,
{
    let c = one.chunks@[i];
    assert(is_chunk(config, buffer, c.start as nat, c.end as nat));
    if i > 0 {
        lemma_same_chunks(config, buffer, one, other, i - 1);
        assert(one.chunks@[i - 1].end == c.start);
        if i < other.chunks@.len() {
            assert(other.chunks@[i - 1].end == other.chunks@[i].start);
        } else {
            assert(other.chunks@.last() == other.chunks@[i - 1]);
        }
    }
    if i < other.chunks@.len() {
        let d = other.chunks@[i];
        assert(is_chunk(config, buffer, d.start as nat, d.end as nat));
    }
}

/// There is one way to cut a buffer.
pub proof fn law_a_buffer_is_cut_in_one_way(
    config: ParserConfig,
    buffer: Seq<u8>,
    one: ChunkPlan,
    other: ChunkPlan,
)
    requires
        is_cut(config, buffer, one),
        is_cut(config, buffer, other),
    ensures
        one.chunks@.len() == other.chunks@.len(),
        forall|i: int|
            0 <= i < one.chunks@.len() ==> (#[trigger] one.chunks@[i]).start
                == other.chunks@[i].start && one.chunks@[i].end == other.chunks@[i].end,
        one.rest == other.rest,
        one.end is Failed == other.end is Failed,
{
    let n = one.chunks@.len() as int;
    let m = other.chunks@.len() as int;
    if n > 0 {
        lemma_same_chunks(config, buffer, one, other, n - 1);
    }
    if m > 0 {
        lemma_same_chunks(config, buffer, other, one, m - 1);
    }
    assert forall|i: int| 0 <= i < one.chunks@.len() implies (#[trigger] one.chunks@[i]).start
        == other.chunks@[i].start && one.chunks@[i].end == other.chunks@[i].end by {
        lemma_same_chunks(config, buffer, one, other, i);
    }
}

/// A producer starts with nothing left.
pub proof fn law_a_producer_starts_with_nothing(producer: Producer)
    requires
        call_ensures(Producer::new, (), producer),
    ensures
        producer.leftover@.len() == 0,
{
}

/// The buffer for a read begins with what is left, and holds nothing else yet.
pub proof fn law_the_next_buffer_holds_what_is_left(producer: Producer, buffer: Vec<u8>)
    requires
        call_ensures(Producer::next_buffer, (&producer,), buffer),
    ensures
        buffer@ == producer.leftover@,
{
}

/// The room for a read is all that is left of 1 MiB: a read that fills it makes the buffer
/// 1 MiB long. There is none only where what is left fills the buffer, so that a read of
/// a file that has not ended is not empty before that.
pub proof fn law_the_room_is_all_that_is_left(producer: Producer, room: usize)
    requires
        call_ensures(Producer::room, (&producer,), room),
    ensures
        producer.leftover@.len() <= 1024 * 1024 ==> producer.leftover@.len() + room == 1024 * 1024,
        room == 0 <==> producer.leftover@.len() >= 1024 * 1024,
{
}

/// After a read that added nothing the stream is done, and what was left is left; after
/// any other the buffer is cut, and what the cut leaves is left: no byte is lost.
pub proof fn law_a_step_cuts_or_is_done(
    producer: &mut Producer,
    nfa: Nfa,
    buffer: &[u8],
    step: FillStep,
)
    requires
        call_ensures(Producer::step, (producer, &nfa, buffer), step),
    ensures
        match step {
            FillStep::Done => {
                &&& buffer@.len() == old(producer).leftover@.len()
                &&& final(producer).leftover@ == old(producer).leftover@
            },
            FillStep::Chunks(plan) => {
                &&& buffer@.len() != old(producer).leftover@.len()
                &&& is_cut(nfa.config, buffer@, plan)
                &&& joined(chunk_bytes(buffer@, plan)) + final(producer).leftover@ == buffer@
            },
        },
{
    if let FillStep::Chunks(plan) = step {
        lemma_is_cut(nfa.config, buffer@, plan);
        law_chunks_and_rest_are_the_buffer(nfa.config, buffer@);
    }
}

/// Filling the queue is one step after the other: where `read` was put behind what was
/// left, the chunks of the step are the first that are sent, and the stream goes on from
/// what the step leaves, unless the cut failed.
pub proof fn law_filling_is_step_by_step(
    producer: &mut Producer,
    nfa: Nfa,
    read: Seq<u8>,
    later: Seq<Seq<u8>>,
    buffer: &[u8],
    step: FillStep,
)
    requires
        buffer@ == old(producer).leftover@ + read,
        call_ensures(Producer::step, (producer, &nfa, buffer), step),
    ensures
        ({
            let progress = filled(nfa.config, old(producer).leftover@, seq![read] + later);
            let on = filled(nfa.config, final(producer).leftover@, later);
            match step {
                FillStep::Done => {
                    &&& progress.sent.len() == 0
                    &&& progress.leftover == final(producer).leftover@
                },
                FillStep::Chunks(plan) => if plan.end == PlanEnd::Leftover {
                    &&& progress.sent == chunk_bytes(buffer@, plan) + on.sent
                    &&& progress.leftover == on.leftover
                    &&& progress.end == on.end
                } else {
                    &&& progress.sent == chunk_bytes(buffer@, plan)
                    &&& progress.leftover == final(producer).leftover@
                    &&& progress.end == plan.end
                },
            }
        }),
{
    assert((seq![read] + later).drop_first() =~= later);
    if let FillStep::Chunks(plan) = step {
        lemma_is_cut(nfa.config, buffer@, plan);
    }
}

/// A range of a buffer can be read where it lies in the buffer, and nowhere else.
pub proof fn law_a_chunk_is_readable_in_its_buffer<B: AsBytes + ?Sized>(chunk: WorkChunk<B>)
    ensures
        chunk.is_readable() <==> chunk.buffer.is_readable() && chunk.range.start
            <= chunk.range.end <= chunk.buffer.bytes().len(),
{
}

/// What a chunk hands on is the bytes of its range, all of them: as many as the range is
/// long, and each is the byte of the buffer at its place.
pub proof fn law_a_chunk_hands_on_its_range<B: AsBytes + ?Sized>(chunk: WorkChunk<B>, read: &[u8])
    requires
        chunk.is_readable(),
        call_ensures(<WorkChunk<B> as AsBytes>::as_bytes, (&chunk,), read),
    ensures
        read@.len() == chunk.range.end - chunk.range.start,
        forall|i: int|
            0 <= i < read@.len() ==> #[trigger] read@[i] == chunk.buffer.bytes()[chunk.range.start
                + i],
{
}

/// A slice can always be read, and hands on its own bytes.
pub proof fn law_a_slice_hands_on_its_bytes(slice: &[u8], read: &[u8])
    requires
        call_ensures(<[u8] as AsBytes>::as_bytes, (slice,), read),
    ensures
        slice.is_readable(),
        slice.bytes() == slice@,
        read@ == slice@,
{
}

/// A vector can always be read, and hands on its own bytes.
pub proof fn law_a_vector_hands_on_its_bytes(vector: Vec<u8>, read: &[u8])
    requires
        call_ensures(<Vec<u8> as AsBytes>::as_bytes, (&vector,), read),
    ensures
        vector.is_readable(),
        vector.bytes() == vector@,
        read@ == vector@,
{
}

/// What consumers read from the chunks of a buffer, one after the other, and what is left
/// of it are the buffer.
pub proof fn law_consumers_read_the_buffer<B: AsBytes + ?Sized>(
    nfa: Nfa,
    buffer: &[u8],
    plan: ChunkPlan,
    chunks: Seq<WorkChunk<B>>,
    read: Seq<&[u8]>,
)
    requires
        call_ensures(plan_chunks, (&nfa, buffer), plan),
        chunks.len() == plan.chunks@.len(),
        read.len() == plan.chunks@.len(),
        forall|i: int|
            0 <= i < chunks.len() ==> (#[trigger] chunks[i]).buffer.is_readable()
                && chunks[i].buffer.bytes() == buffer@ && chunks[i].range == plan.chunks@[i],
        forall|i: int|
            0 <= i < chunks.len() ==> call_ensures(
                <WorkChunk<B> as AsBytes>::as_bytes,
                (&chunks[i],),
                #[trigger] read[i],
            ),
    ensures
        forall|i: int| 0 <= i < chunks.len() ==> (#[trigger] chunks[i]).is_readable(),
        joined(read.map_values(|r: &[u8]| r@)) + buffer@.skip(plan.rest as int) == buffer@,
{
    law_plan_chunks_cuts_the_buffer(nfa, buffer, plan);
    let bytes = read.map_values(|r: &[u8]| r@);
    assert forall|i: int| 0 <= i < chunks.len() implies (#[trigger] chunks[i]).is_readable()
        && bytes[i] == chunk_bytes(buffer@, plan)[i] by {
        let c = plan.chunks@[i];
        assert(is_chunk(nfa.config, buffer@, c.start as nat, c.end as nat));
        assert(chunks[i].range == c);
        law_a_chunk_is_readable_in_its_buffer(chunks[i]);
        assert(read[i]@ == bytes[i]);
        law_a_chunk_hands_on_its_range(chunks[i], read[i]);
        assert(bytes[i] =~= buffer@.subrange(c.start as int, c.end as int));
    }
    assert(bytes =~= chunk_bytes(buffer@, plan));
}

} // verus!
