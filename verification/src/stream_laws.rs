//! What holds of a stream that is read piece by piece and sent on in chunks.

use vstd::prelude::*;

use crate::chunk_laws::bytes_of;
use crate::chunk_laws::joined;
use crate::chunk_laws::law_chunks_and_rest_are_the_buffer;
use crate::chunk_laws::law_chunks_are_long;
use crate::chunk_laws::lemma_plan;
use crate::csv_bytes::plan_from;
use crate::csv_bytes::room_behind;
use crate::csv_bytes::search_start;
use crate::csv_bytes::Plan;
use crate::csv_bytes::PlanEnd;
use crate::csv_bytes::SIZE_128_KIB;
use crate::csv_bytes::SIZE_1_MIB;
use crate::finite_automata::ParserConfig;
use crate::finite_automata::SearchOutcome;
use crate::search_laws::law_search_outcome_is_stable;

verus! {

/// How far a stream has come.
pub struct Progress {
    /// The chunks that were sent.
    pub sent: Seq<Seq<u8>>,
    /// What is left of the bytes that were read.
    pub leftover: Seq<u8>,
    /// How many reads were made.
    pub reads: nat,
    /// Whether the stream waits for more, or what stopped it.
    pub end: PlanEnd,
}

/// Filling the queue from `reads`, with `leftover` left from before: each read is put
/// behind what is left, the buffer is cut, the chunks are sent. An empty read ends
/// the stream; so does a buffer that cannot be cut.
pub open spec fn filled(config: ParserConfig, leftover: Seq<u8>, reads: Seq<Seq<u8>>) -> Progress
    decreases reads.len(),
{
    if reads.len() == 0 || reads[0].len() == 0 {
        Progress { sent: seq![], leftover, reads: 0, end: PlanEnd::Leftover }
    } else {
        let buffer = leftover + reads[0];
        let plan = plan_from(config, buffer, 0);
        let sent = bytes_of(buffer, plan.chunks);
        let rest = buffer.skip(plan.rest as int);
        if plan.end == PlanEnd::Leftover {
            let later = filled(config, rest, reads.drop_first());
            Progress {
                sent: sent + later.sent,
                leftover: later.leftover,
                reads: later.reads + 1,
                end: later.end,
            }
        } else {
            Progress { sent, leftover: rest, reads: 1, end: plan.end }
        }
    }
}

/// Chunks further on.
pub open spec fn shifted(chunks: Seq<(nat, nat)>, by: nat) -> Seq<(nat, nat)> {
    chunks.map_values(|c: (nat, nat)| (c.0 + by, c.1 + by))
}

proof fn lemma_plan_shift(config: ParserConfig, buffer: Seq<u8>, by: nat, cur: nat)
    requires
        by + cur <= buffer.len(),
    ensures
        ({
            let inner = plan_from(config, buffer.skip(by as int), cur);
            plan_from(config, buffer, by + cur) == (Plan {
                chunks: shifted(inner.chunks, by),
                rest: inner.rest + by,
                end: inner.end,
            })
        }),
    decreases buffer.len() - by - cur,
{
    let tail = buffer.skip(by as int);
    let start = search_start(cur);
    assert(shifted(seq![], by) =~= seq![]);
    if tail.len() - cur >= SIZE_128_KIB {
        assert(tail.skip(start as int) =~= buffer.skip(search_start(by + cur) as int));
        if let SearchOutcome::Found(n) = config.search_outcome(tail.skip(start as int)) {
            if start + n < tail.len() {
                let next = start + n + 1;
                lemma_plan_shift(config, buffer, by, next);
                let others = plan_from(config, tail, next).chunks;
                assert(shifted(seq![(cur, next)] + others, by) =~= seq![(by + cur, by + next)]
                    + shifted(others, by));
            }
        }
    }
}

proof fn lemma_plan_extend(config: ParserConfig, buffer: Seq<u8>, more: Seq<u8>, cur: nat)
    requires
        cur <= buffer.len(),
    ensures
        ({
            let plan = plan_from(config, buffer, cur);
            plan_from(config, buffer + more, cur) == plan_from(
                config,
                buffer + more,
                plan.rest,
            ).after(plan.chunks)
        }),
    decreases buffer.len() - cur,
{
    let all = buffer + more;
    let start = search_start(cur);
    let here = plan_from(config, all, cur);
    assert(seq![] + here.chunks =~= here.chunks);
    if buffer.len() - cur >= SIZE_128_KIB {
        let tail = buffer.skip(start as int);
        assert(all.skip(start as int) =~= tail + more);
        if let SearchOutcome::Found(n) = config.search_outcome(tail) {
            law_search_outcome_is_stable(config, tail, more);
            if start + n < buffer.len() {
                let next = start + n + 1;
                lemma_plan_extend(config, buffer, more, next);
                let others = plan_from(config, buffer, next).chunks;
                let plan = plan_from(config, buffer, cur);
                let later = plan_from(config, all, plan.rest);
                assert(seq![(cur, next)] + (others + later.chunks) =~= plan.chunks
                    + later.chunks);
            }
        }
    }
}

/// Pieces of `part` hold the same bytes where they lie in `all`.
proof fn lemma_piece_bytes(part: Seq<u8>, all: Seq<u8>, by: nat, chunks: Seq<(nat, nat)>)
    requires
        by + part.len() <= all.len(),
        forall|j: int| 0 <= j < part.len() ==> #[trigger] part[j] == all[j + by],
        forall|i: int|
            0 <= i < chunks.len() ==> (#[trigger] chunks[i]).0 <= chunks[i].1 <= part.len(),
    ensures
        bytes_of(all, shifted(chunks, by)) == bytes_of(part, chunks),
{
    let there = bytes_of(all, shifted(chunks, by));
    let here = bytes_of(part, chunks);
    assert forall|i: int| 0 <= i < chunks.len() implies there[i] == here[i] by {
        let c = chunks[i];
        let moved = all.subrange((c.0 + by) as int, (c.1 + by) as int);
        let kept = part.subrange(c.0 as int, c.1 as int);
        assert forall|j: int| 0 <= j < kept.len() implies moved[j] == kept[j] by {
            assert(part[c.0 + j] == all[c.0 + j + by]);
        }
        assert(moved =~= kept);
    }
    assert(there =~= here);
}

proof fn lemma_chunk_bytes(config: ParserConfig, buffer: Seq<u8>, all: Seq<u8>, by: nat)
    requires
        by + buffer.len() <= all.len(),
        forall|j: int| 0 <= j < buffer.len() ==> #[trigger] buffer[j] == all[j + by],
    ensures
        ({
            let chunks = plan_from(config, buffer, 0).chunks;
            bytes_of(all, shifted(chunks, by)) == bytes_of(buffer, chunks)
        }),
{
    let chunks = plan_from(config, buffer, 0).chunks;
    assert forall|i: int| 0 <= i < chunks.len() implies (#[trigger] chunks[i]).0 <= chunks[i].1
        <= buffer.len() by {
        law_chunks_are_long(config, buffer, i);
    }
    lemma_piece_bytes(buffer, all, by, chunks);
}

/// What is left of a buffer is cut no further.
proof fn lemma_rest_is_not_cut(config: ParserConfig, buffer: Seq<u8>)
    ensures
        ({
            let plan = plan_from(config, buffer, 0);
            let rest = buffer.skip(plan.rest as int);
            &&& plan.rest <= buffer.len()
            &&& plan_from(config, rest, 0) == (Plan { chunks: seq![], rest: 0, end: plan.end })
        }),
{
    let plan = plan_from(config, buffer, 0);
    lemma_plan(config, buffer, 0);
    lemma_plan_shift(config, buffer, plan.rest, 0);
    let inner = plan_from(config, buffer.skip(plan.rest as int), 0);
    assert(shifted(inner.chunks, plan.rest).len() == inner.chunks.len());
    assert(inner.chunks =~= seq![]);
}

/// Cutting a buffer, and then what is left of it with more behind it, is cutting all
/// of it at once.
proof fn lemma_plan_continues(config: ParserConfig, buffer: Seq<u8>, more: Seq<u8>)
    ensures
        ({
            let plan = plan_from(config, buffer, 0);
            let rest = buffer.skip(plan.rest as int);
            let last = plan_from(config, rest + more, 0);
            let whole = plan_from(config, buffer + more, 0);
            &&& plan_from(config, rest, 0) == (Plan { chunks: seq![], rest: 0, end: plan.end })
            &&& bytes_of(buffer + more, whole.chunks) == bytes_of(buffer, plan.chunks) + bytes_of(
                rest + more,
                last.chunks,
            )
            &&& (buffer + more).skip(whole.rest as int) == (rest + more).skip(last.rest as int)
            &&& whole.end == last.end
        }),
{
    let plan = plan_from(config, buffer, 0);
    let rest = buffer.skip(plan.rest as int);
    let all = buffer + more;
    let tail = rest + more;
    let last = plan_from(config, tail, 0);
    let whole = plan_from(config, all, 0);
    lemma_rest_is_not_cut(config, buffer);
    lemma_rest_is_not_cut(config, tail);
    assert(all.skip(plan.rest as int) =~= tail);
    lemma_plan_extend(config, buffer, more, 0);
    lemma_plan_shift(config, all, plan.rest, 0);
    assert(whole.chunks =~= plan.chunks + shifted(last.chunks, plan.rest));
    assert(whole.rest == last.rest + plan.rest);
    assert(all.skip(whole.rest as int) =~= tail.skip(last.rest as int));

    lemma_chunk_bytes(config, buffer, all, 0);
    lemma_chunk_bytes(config, tail, all, plan.rest);
    assert(shifted(plan.chunks, 0) =~= plan.chunks);
    assert(bytes_of(all, whole.chunks) =~= bytes_of(all, plan.chunks) + bytes_of(
        all,
        shifted(last.chunks, plan.rest),
    ));
}

proof fn lemma_filled(config: ParserConfig, leftover: Seq<u8>, reads: Seq<Seq<u8>>)
    requires
        plan_from(config, leftover, 0) == (Plan {
            chunks: seq![],
            rest: 0,
            end: PlanEnd::Leftover,
        }),
    ensures
        ({
            let progress = filled(config, leftover, reads);
            let all = leftover + joined(reads.take(progress.reads as int));
            let plan = plan_from(config, all, 0);
            &&& progress.reads <= reads.len()
            &&& progress.sent == bytes_of(all, plan.chunks)
            &&& progress.leftover == all.skip(plan.rest as int)
            &&& progress.end == plan.end
        }),
    decreases reads.len(),
{
    let progress = filled(config, leftover, reads);
    if reads.len() == 0 || reads[0].len() == 0 {
        assert(reads.take(0) =~= seq![]);
        assert(leftover + joined(seq![]) =~= leftover);
        assert(bytes_of(leftover, seq![]) =~= seq![]);
        assert(leftover.skip(0) =~= leftover);
    } else {
        let buffer = leftover + reads[0];
        let plan = plan_from(config, buffer, 0);
        let rest = buffer.skip(plan.rest as int);
        if plan.end == PlanEnd::Leftover {
            let others = reads.drop_first();
            let later = filled(config, rest, others);
            let more = joined(others.take(later.reads as int));
            lemma_plan_continues(config, buffer, more);
            lemma_filled(config, rest, others);
            let taken = reads.take(progress.reads as int);
            assert(taken[0] == reads[0]);
            assert(taken.drop_first() =~= others.take(later.reads as int));
            assert(joined(taken) == reads[0] + more);
            assert(leftover + joined(taken) =~= buffer + more);
        } else {
            assert(reads.take(1)[0] == reads[0]);
            assert(reads.take(1).drop_first() =~= seq![]);
            assert(joined(reads.take(1)) =~= reads[0] + joined(seq![]));
            assert(leftover + joined(reads.take(1)) =~= buffer);
        }
    }
}

/// No byte of the stream is lost, sent twice or moved: the chunks that were sent and
/// what is left are the bytes that were read.
pub proof fn law_no_byte_is_lost(config: ParserConfig, reads: Seq<Seq<u8>>)
    ensures
        ({
            let progress = filled(config, seq![], reads);
            &&& progress.reads <= reads.len()
            &&& joined(progress.sent) + progress.leftover == joined(
                reads.take(progress.reads as int),
            )
        }),
{
    law_reads_do_not_matter(config, reads);
    let progress = filled(config, seq![], reads);
    law_chunks_and_rest_are_the_buffer(config, joined(reads.take(progress.reads as int)));
}

/// The chunks do not depend on how the stream is split into reads: they are those of
/// one buffer that holds all that was read.
pub proof fn law_reads_do_not_matter(config: ParserConfig, reads: Seq<Seq<u8>>)
    ensures
        ({
            let progress = filled(config, seq![], reads);
            let all = joined(reads.take(progress.reads as int));
            let plan = plan_from(config, all, 0);
            &&& progress.reads <= reads.len()
            &&& progress.sent == bytes_of(all, plan.chunks)
            &&& progress.leftover == all.skip(plan.rest as int)
            &&& progress.end == plan.end
        }),
{
    lemma_filled(config, seq![], reads);
    let progress = filled(config, seq![], reads);
    let all = joined(reads.take(progress.reads as int));
    assert(seq![] + all =~= all);
}

/// Whether each read adds no more than there is room for behind what was left.
pub open spec fn reads_fit(config: ParserConfig, leftover: Seq<u8>, reads: Seq<Seq<u8>>) -> bool
    decreases reads.len(),
{
    reads.len() == 0 || reads[0].len() == 0 || {
        let buffer = leftover + reads[0];
        let plan = plan_from(config, buffer, 0);
        &&& reads[0].len() <= room_behind(leftover.len())
        &&& plan.end == PlanEnd::Leftover ==> reads_fit(
            config,
            buffer.skip(plan.rest as int),
            reads.drop_first(),
        )
    }
}

proof fn lemma_filled_in_room(config: ParserConfig, leftover: Seq<u8>, reads: Seq<Seq<u8>>)
    requires
        leftover.len() <= SIZE_1_MIB,
        reads_fit(config, leftover, reads),
    ensures
        ({
            let progress = filled(config, leftover, reads);
            &&& forall|i: int|
                0 <= i < progress.sent.len() ==> (#[trigger] progress.sent[i]).len() <= SIZE_1_MIB
            &&& progress.leftover.len() <= SIZE_1_MIB
        }),
    decreases reads.len(),
{
    if reads.len() > 0 && reads[0].len() > 0 {
        let buffer = leftover + reads[0];
        let plan = plan_from(config, buffer, 0);
        let sent = bytes_of(buffer, plan.chunks);
        lemma_plan(config, buffer, 0);
        assert forall|i: int| 0 <= i < sent.len() implies (#[trigger] sent[i]).len()
            <= SIZE_1_MIB by {
            law_chunks_are_long(config, buffer, i);
        }
        if plan.end == PlanEnd::Leftover {
            let rest = buffer.skip(plan.rest as int);
            lemma_filled_in_room(config, rest, reads.drop_first());
            let later = filled(config, rest, reads.drop_first());
            let progress = filled(config, leftover, reads);
            assert forall|i: int| 0 <= i < progress.sent.len() implies (
            #[trigger] progress.sent[i]).len() <= SIZE_1_MIB by {
                if i < sent.len() {
                    assert(progress.sent[i] == sent[i]);
                } else {
                    assert(progress.sent[i] == later.sent[i - sent.len()]);
                }
            }
        }
    }
}

/// Where no read adds more than there is room for, no chunk is longer than 1 MiB, and
/// neither is what is left.
pub proof fn law_chunks_fit_in_a_buffer(config: ParserConfig, reads: Seq<Seq<u8>>)
    requires
        reads_fit(config, seq![], reads),
    ensures
        ({
            let progress = filled(config, seq![], reads);
            &&& forall|i: int|
                0 <= i < progress.sent.len() ==> (#[trigger] progress.sent[i]).len() <= SIZE_1_MIB
            &&& progress.leftover.len() <= SIZE_1_MIB
        }),
{
    lemma_filled_in_room(config, seq![], reads);
}

} // verus!
