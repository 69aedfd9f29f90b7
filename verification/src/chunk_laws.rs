//! What holds of the chunks that buffers are cut into.

use vstd::prelude::*;

use crate::automata_laws::at_record_end;
use crate::byte_search::lemma_first_from;
use crate::csv_bytes::plan_from;
use crate::csv_bytes::search_start;
use crate::csv_bytes::Plan;
use crate::csv_bytes::PlanEnd;
use crate::csv_bytes::SIZE_128_KIB;
use crate::csv_bytes::SIZE_4_KIB;
use crate::finite_automata::ParserConfig;
use crate::finite_automata::SearchOutcome;
use crate::finite_automata::Terminator;
use crate::finite_automata::CR;
use crate::finite_automata::LF;
use crate::search_laws::law_found_after_good_scans;
use crate::search_laws::law_found_is_a_record_end;

verus! {

/// The bytes of the chunks of `buffer`.
pub open spec fn bytes_of(buffer: Seq<u8>, chunks: Seq<(nat, nat)>) -> Seq<Seq<u8>> {
    chunks.map_values(|c: (nat, nat)| buffer.subrange(c.0 as int, c.1 as int))
}

/// Pieces one after the other.
pub open spec fn joined(pieces: Seq<Seq<u8>>) -> Seq<u8>
    decreases pieces.len(),
{
    if pieces.len() == 0 {
        seq![]
    } else {
        pieces[0] + joined(pieces.drop_first())
    }
}

/// Whether `chunks` follow each other without a gap from `from` to `to`.
pub open spec fn contiguous(chunks: Seq<(nat, nat)>, from: nat, to: nat) -> bool {
    if chunks.len() == 0 {
        from == to
    } else {
        &&& chunks[0].0 == from
        &&& chunks.last().1 == to
        &&& forall|i: int, j: int|
            0 <= i && j == i + 1 && j < chunks.len() ==> (#[trigger] chunks[i]).1 == (
            #[trigger] chunks[j]).0
    }
}

/// Whether the chunk `c` of `buffer` is cut where there is enough of it, and ends with the
/// byte at the record end that the search finds.
pub open spec fn ends_at_found(config: ParserConfig, buffer: Seq<u8>, c: (nat, nat)) -> bool {
    let start = search_start(c.0);
    &&& c.0 + SIZE_128_KIB <= buffer.len()
    &&& config.search_outcome(buffer.skip(start as int)) matches SearchOutcome::Found(n)
    &&& start + n < buffer.len()
    &&& c.1 == start + n + 1
}

/// What is cut from `cur` on: the chunks follow each other up to what is left, each ends
/// with the byte at a record end that the search finds, together they are the bytes up
/// to there, and what is left is cut no further.
pub proof fn lemma_plan(config: ParserConfig, buffer: Seq<u8>, cur: nat)
    requires
        cur <= buffer.len(),
    ensures
        ({
            let plan = plan_from(config, buffer, cur);
            &&& cur <= plan.rest <= buffer.len()
            &&& contiguous(plan.chunks, cur, plan.rest)
            &&& forall|i: int|
                0 <= i < plan.chunks.len() ==> ends_at_found(
                    config,
                    buffer,
                    #[trigger] plan.chunks[i],
                )
            &&& joined(bytes_of(buffer, plan.chunks)) == buffer.subrange(
                cur as int,
                plan.rest as int,
            )
            &&& plan_from(config, buffer, plan.rest) == (Plan {
                chunks: seq![],
                rest: plan.rest,
                end: plan.end,
            })
        }),
    decreases buffer.len() - cur,
{
    let plan = plan_from(config, buffer, cur);
    let start = search_start(cur);
    assert(bytes_of(buffer, seq![]) =~= seq![]);
    assert(buffer.subrange(cur as int, cur as int) =~= seq![]);
    if buffer.len() - cur >= SIZE_128_KIB {
        if let SearchOutcome::Found(n) = config.search_outcome(buffer.skip(start as int)) {
            if start + n < buffer.len() {
                let next = start + n + 1;
                lemma_plan(config, buffer, next);
                let others = plan_from(config, buffer, next).chunks;
                let first = (cur, next);
                let bytes = bytes_of(buffer, plan.chunks);
                assert(plan.chunks =~= seq![first] + others);
                assert(bytes.drop_first() =~= bytes_of(buffer, others));
                assert(bytes[0] == buffer.subrange(cur as int, next as int));
                assert(buffer.subrange(cur as int, next as int) + buffer.subrange(
                    next as int,
                    plan.rest as int,
                ) =~= buffer.subrange(cur as int, plan.rest as int));
                assert forall|i: int| 0 <= i < plan.chunks.len() implies ends_at_found(
                    config,
                    buffer,
                    #[trigger] plan.chunks[i],
                ) by {
                    if i > 0 {
                        assert(plan.chunks[i] == others[i - 1]);
                    }
                }
                assert forall|i: int, j: int|
                    0 <= i && j == i + 1 && j < plan.chunks.len() implies (
                #[trigger] plan.chunks[i]).1 == (#[trigger] plan.chunks[j]).0 by {
                    assert(plan.chunks[j] == others[j - 1]);
                    if i > 0 {
                        assert(plan.chunks[i] == others[i - 1]);
                    }
                }
                if others.len() > 0 {
                    assert(plan.chunks.last() == others.last());
                }
            }
        }
    }
}

/// The chunks of a buffer follow each other from its start, and what is left follows
/// them: together they are the buffer.
pub proof fn law_chunks_and_rest_are_the_buffer(config: ParserConfig, buffer: Seq<u8>)
    ensures
        ({
            let plan = plan_from(config, buffer, 0);
            &&& plan.rest <= buffer.len()
            &&& contiguous(plan.chunks, 0, plan.rest)
            &&& joined(bytes_of(buffer, plan.chunks)) + buffer.skip(plan.rest as int) == buffer
        }),
{
    lemma_plan(config, buffer, 0);
    let plan = plan_from(config, buffer, 0);
    assert(buffer.subrange(0, plan.rest as int) + buffer.skip(plan.rest as int) =~= buffer);
}

/// A chunk lies in its buffer, and is longer than 124 KiB.
pub proof fn law_chunks_are_long(config: ParserConfig, buffer: Seq<u8>, i: int)
    requires
        0 <= i < plan_from(config, buffer, 0).chunks.len(),
    ensures
        ({
            let c = plan_from(config, buffer, 0).chunks[i];
            c.0 + (SIZE_128_KIB - SIZE_4_KIB) < c.1 <= buffer.len()
        }),
{
    lemma_plan(config, buffer, 0);
    assert(ends_at_found(config, buffer, plan_from(config, buffer, 0).chunks[i]));
}

/// A chunk ends with the byte at a record end: its last byte terminates a record, or the
/// byte before is the `\r` that does. Where the search requires no record to be scanned,
/// the last byte is a line feed; this is left out where that is no terminator.
pub proof fn law_chunks_end_at_record_ends(config: ParserConfig, buffer: Seq<u8>, i: int)
    requires
        config.find_a_record_end_required_good_scans > 0 || config.term.terminates(LF),
        0 <= i < plan_from(config, buffer, 0).chunks.len(),
    ensures
        at_record_end(config, buffer, (plan_from(config, buffer, 0).chunks[i].1 - 1) as nat),
{
    lemma_plan(config, buffer, 0);
    let c = plan_from(config, buffer, 0).chunks[i];
    assert(ends_at_found(config, buffer, c));
    let start = search_start(c.0);
    let tail = buffer.skip(start as int);
    let n = (c.1 - start - 1) as nat;
    law_found_is_a_record_end(config, tail);
    assert(tail[n as int] == buffer[c.1 - 1]);
    if n > 0 {
        assert(tail[n - 1] == buffer[c.1 - 2]);
    }
}

/// The last byte of a chunk is a terminator; where `\r` and `\n` terminate records, it is
/// a `\r` only behind another `\r`, so that a `\r\n` that ends the record is not cut in
/// two. Left out is a `\r` that ends the record with neither a `\n` nor a `\r` behind it:
/// then the chunk ends with the byte behind the `\r`, which is the first of the next
/// record.
pub proof fn law_chunks_end_with_a_terminator(config: ParserConfig, buffer: Seq<u8>, i: int)
    requires
        config.find_a_record_end_required_good_scans > 0 || config.term.terminates(LF),
        0 <= i < plan_from(config, buffer, 0).chunks.len(),
        ({
            let end = plan_from(config, buffer, 0).chunks[i].1 as int;
            config.term == Terminator::CRLF && buffer[end - 2] == CR ==> buffer[end - 1] == LF
                || buffer[end - 1] == CR
        }),
    ensures
        ({
            let end = plan_from(config, buffer, 0).chunks[i].1 as int;
            &&& config.term.terminates(buffer[end - 1])
            &&& config.term == Terminator::CRLF && buffer[end - 1] == CR ==> buffer[end - 2] == CR
        }),
{
    law_chunks_are_long(config, buffer, i);
    law_chunks_end_at_record_ends(config, buffer, i);
}

/// What waits for more input is too short to be cut, or holds no record end that the
/// search finds, or only one behind a `\r` that is the last byte, so that the byte at
/// the record end is not there yet.
pub proof fn law_leftover_cannot_be_cut(config: ParserConfig, buffer: Seq<u8>)
    ensures
        ({
            let plan = plan_from(config, buffer, 0);
            let start = search_start(plan.rest);
            let found = config.search_outcome(buffer.skip(start as int));
            plan.end == PlanEnd::Leftover ==> {
                ||| buffer.len() - plan.rest < SIZE_128_KIB
                ||| found is Exhausted
                ||| found == SearchOutcome::Found((buffer.len() - start) as nat) && config.term
                    == Terminator::CRLF && buffer.last() == CR
            }
        }),
{
    lemma_plan(config, buffer, 0);
    let plan = plan_from(config, buffer, 0);
    let tail = buffer.skip(search_start(plan.rest) as int);
    if plan.end == PlanEnd::Leftover && buffer.len() - plan.rest >= SIZE_128_KIB {
        if config.find_a_record_end_required_good_scans == 0 {
            lemma_first_from(tail, 0, set![LF]);
        } else {
            law_found_is_a_record_end(config, tail);
        }
        law_found_after_good_scans(config, tail);
        assert(tail.last() == buffer.last());
    }
}

/// A cut fails only where the search for a record end gave up: there is enough left to be
/// cut, and the search that starts 124 KiB behind what was cut gives up.
pub proof fn law_a_cut_fails_only_where_the_search_gave_up(config: ParserConfig, buffer: Seq<u8>)
    ensures
        ({
            let plan = plan_from(config, buffer, 0);
            plan.end is Failed ==> {
                &&& plan.rest + 128 * 1024 <= buffer.len()
                &&& config.search_outcome(buffer.skip((plan.rest + 124 * 1024) as int)) is GaveUp
            }
        }),
{
    lemma_plan(config, buffer, 0);
}

} // verus!
