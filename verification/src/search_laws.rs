//! What holds of the search for a record end.

use vstd::prelude::*;

use crate::automata_laws::at_record_end;
use crate::automata_laws::law_scan_ends_at_record_end;
use crate::automata_laws::law_scan_moves_on;
use crate::automata_laws::law_scan_outcome_is_stable;
use crate::byte_search::first_from;
use crate::byte_search::lemma_first_from;
use crate::byte_search::lemma_first_from_extend;
use crate::finite_automata::ParserConfig;
use crate::finite_automata::ScanOutcome;
use crate::finite_automata::SearchOutcome;
use crate::finite_automata::LF;

verus! {

proof fn lemma_search_extend(
    config: ParserConfig,
    buffer: Seq<u8>,
    more: Seq<u8>,
    at: nat,
    good: nat,
    tries: nat,
)
    requires
        at <= buffer.len(),
        config.search(buffer, at, good, tries) !is Exhausted,
    ensures
        config.search(buffer + more, at, good, tries) == config.search(buffer, at, good, tries),
    decreases
            config.find_a_record_end_max_tries - tries,
            config.find_a_record_end_required_good_scans - good,
{
    if good < config.find_a_record_end_required_good_scans && tries
        < config.find_a_record_end_max_tries {
        let rest = buffer.skip(at as int);
        assert((buffer + more).skip(at as int) =~= rest + more);
        law_scan_moves_on(config, rest);
        law_scan_outcome_is_stable(config, rest, more);
        match config.scan_outcome(rest) {
            ScanOutcome::Accepted(n) => {
                lemma_search_extend(config, buffer, more, at + n, good + 1, tries);
            },
            ScanOutcome::Rejected(n) => {
                lemma_first_from(buffer, at + n + 1, set![LF]);
                lemma_first_from_extend(buffer, more, at + n + 1, set![LF]);
                let i = first_from(buffer, at + n + 1, set![LF])->0;
                lemma_search_extend(config, buffer, more, i, 0, tries + 1);
            },
            ScanOutcome::Exhausted => {},
        }
    }
}

/// A search that found a record end, or gave up, ends so when more bytes follow.
pub proof fn law_search_outcome_is_stable(config: ParserConfig, buffer: Seq<u8>, more: Seq<u8>)
    requires
        config.search_outcome(buffer) !is Exhausted,
    ensures
        config.search_outcome(buffer + more) == config.search_outcome(buffer),
{
    lemma_first_from(buffer, 0, set![LF]);
    lemma_first_from_extend(buffer, more, 0, set![LF]);
    let i = first_from(buffer, 0, set![LF])->0;
    lemma_search_extend(config, buffer, more, i, 0, 0);
}

/// Whether the first of a row of scans may start at `p` in a search: at a line feed,
/// the first one or one behind it.
pub open spec fn at_line_feed(buffer: Seq<u8>, p: nat) -> bool {
    &&& p < buffer.len()
    &&& buffer[p as int] == LF
    &&& first_from(buffer, 0, set![LF]) matches Some(first) && first <= p
}

/// Whether the scan at `from` accepts a record that ends at `to`.
pub open spec fn record_between(
    config: ParserConfig,
    buffer: Seq<u8>,
    from: nat,
    to: nat,
) -> bool {
    &&& from < to <= buffer.len()
    &&& config.scan_outcome(buffer.skip(from as int)) == ScanOutcome::Accepted((to - from) as nat)
}

/// Whether scans that each start where the one before ended accept the records
/// between the positions of `ends`.
pub open spec fn records_between(config: ParserConfig, buffer: Seq<u8>, ends: Seq<nat>) -> bool {
    forall|i: int, j: int|
        0 <= i && j == i + 1 && j < ends.len() ==> record_between(
            config,
            buffer,
            #[trigger] ends[i],
            #[trigger] ends[j],
        )
}

proof fn lemma_search_found(
    config: ParserConfig,
    buffer: Seq<u8>,
    ends: Seq<nat>,
    tries: nat,
) -> (all: Seq<nat>)
    requires
        ends.len() > 0,
        ends.last() <= buffer.len(),
        at_line_feed(buffer, ends[0]),
        records_between(config, buffer, ends),
        ends.len() - 1 <= config.find_a_record_end_required_good_scans,
    ensures
        config.search(buffer, ends.last(), (ends.len() - 1) as nat, tries) matches SearchOutcome::Found(
            o,
        ) ==> {
            &&& all.len() == config.find_a_record_end_required_good_scans + 1
            &&& at_line_feed(buffer, all[0])
            &&& records_between(config, buffer, all)
            &&& all.last() == o
            &&& o <= buffer.len()
        },
    decreases
            config.find_a_record_end_max_tries - tries,
            config.find_a_record_end_required_good_scans + 1 - ends.len(),
{
    let at = ends.last();
    if ends.len() - 1 >= config.find_a_record_end_required_good_scans || tries
        >= config.find_a_record_end_max_tries {
        ends
    } else {
        let rest = buffer.skip(at as int);
        law_scan_moves_on(config, rest);
        match config.scan_outcome(rest) {
            ScanOutcome::Accepted(n) => {
                let longer = ends.push(at + n);
                assert forall|i: int, j: int|
                    0 <= i && j == i + 1 && j < longer.len() implies record_between(
                    config,
                    buffer,
                    #[trigger] longer[i],
                    #[trigger] longer[j],
                ) by {
                    assert(longer[i] == ends[i]);
                    if j < ends.len() {
                        assert(longer[j] == ends[j]);
                    }
                }
                lemma_search_found(config, buffer, longer, tries)
            },
            ScanOutcome::Rejected(n) => {
                lemma_first_from(buffer, 0, set![LF]);
                lemma_first_from(buffer, at + n + 1, set![LF]);
                match first_from(buffer, at + n + 1, set![LF]) {
                    Some(i) => lemma_search_found(
                        config,
                        buffer,
                        seq![i],
                        tries + 1,
                    ),
                    None => ends,
                }
            },
            ScanOutcome::Exhausted => ends,
        }
    }
}

/// A record end is found only where the required number of records follow each
/// other without a gap, from the first line feed or one behind it, and end there.
pub proof fn law_found_after_good_scans(config: ParserConfig, buffer: Seq<u8>)
    ensures
        config.search_outcome(buffer) matches SearchOutcome::Found(o) ==> {
            &&& o <= buffer.len()
            &&& exists|ends: Seq<nat>| #[trigger]
                records_between(config, buffer, ends) && ends.len()
                    == config.find_a_record_end_required_good_scans + 1 && at_line_feed(
                    buffer,
                    ends[0],
                ) && ends.last() == o
        },
{
    lemma_first_from(buffer, 0, set![LF]);
    if let Some(i) = first_from(buffer, 0, set![LF]) {
        let all = lemma_search_found(config, buffer, seq![i], 0);
    }
}

/// What the search finds is a record end. A search that requires no record to be
/// scanned finds the first line feed; it is left out where that is no terminator.
pub proof fn law_found_is_a_record_end(config: ParserConfig, buffer: Seq<u8>)
    requires
        config.find_a_record_end_required_good_scans > 0 || config.term.terminates(LF),
    ensures
        config.search_outcome(buffer) matches SearchOutcome::Found(o) ==> at_record_end(
            config,
            buffer,
            o,
        ),
{
    if config.find_a_record_end_required_good_scans == 0 {
        lemma_first_from(buffer, 0, set![LF]);
    } else if let SearchOutcome::Found(o) = config.search_outcome(buffer) {
        law_found_after_good_scans(config, buffer);
        let ends = choose|ends: Seq<nat>| #[trigger]
            records_between(config, buffer, ends) && ends.len()
                == config.find_a_record_end_required_good_scans + 1 && at_line_feed(buffer, ends[0])
                && ends.last() == o;
        let k = ends.len() - 2;
        assert(record_between(config, buffer, ends[k], ends[k + 1]));
        let rest = buffer.skip(ends[k] as int);
        law_scan_ends_at_record_end(config, rest);
        let n = (o - ends[k]) as nat;
        assert(config.scan_outcome(rest) == ScanOutcome::Accepted(n));
        law_scan_moves_on(config, rest);
        assert(rest[n - 1] == buffer[o - 1]);
        if n < rest.len() {
            assert(rest[n as int] == buffer[o as int]);
        }
    }
}

/// Whether the scans that start at the positions of `starts`, one behind the other,
/// reject what is there.
pub open spec fn rejected_at(config: ParserConfig, buffer: Seq<u8>, starts: Seq<nat>) -> bool {
    &&& forall|i: int|
        0 <= i < starts.len() ==> #[trigger] starts[i] <= buffer.len() && config.scan_outcome(
            buffer.skip(starts[i] as int),
        ) is Rejected
    &&& forall|i: int, j: int| 0 <= i < j < starts.len() ==> starts[i] < starts[j]
}

proof fn lemma_search_gave_up(
    config: ParserConfig,
    buffer: Seq<u8>,
    at: nat,
    good: nat,
    starts: Seq<nat>,
) -> (all: Seq<nat>)
    requires
        at <= buffer.len(),
        rejected_at(config, buffer, starts),
        starts.len() > 0 ==> starts.last() < at,
        starts.len() <= config.find_a_record_end_max_tries,
    ensures
        config.search(buffer, at, good, starts.len()) is GaveUp ==> {
            &&& all.len() == config.find_a_record_end_max_tries
            &&& rejected_at(config, buffer, all)
        },
    decreases
            config.find_a_record_end_max_tries - starts.len(),
            config.find_a_record_end_required_good_scans - good,
{
    if good >= config.find_a_record_end_required_good_scans || starts.len()
        >= config.find_a_record_end_max_tries {
        starts
    } else {
        let rest = buffer.skip(at as int);
        law_scan_moves_on(config, rest);
        match config.scan_outcome(rest) {
            ScanOutcome::Accepted(n) => lemma_search_gave_up(
                config,
                buffer,
                at + n,
                good + 1,
                starts,
            ),
            ScanOutcome::Rejected(n) => {
                lemma_first_from(buffer, at + n + 1, set![LF]);
                match first_from(buffer, at + n + 1, set![LF]) {
                    Some(i) => lemma_search_gave_up(
                        config,
                        buffer,
                        i,
                        0,
                        starts.push(at),
                    ),
                    None => starts,
                }
            },
            ScanOutcome::Exhausted => starts,
        }
    }
}

/// The search gives up only after as many scans as it may try, each further on than
/// the one before, have rejected what they found.
pub proof fn law_gives_up_after_max_tries(config: ParserConfig, buffer: Seq<u8>)
    ensures
        config.search_outcome(buffer) is GaveUp ==> exists|starts: Seq<nat>| #[trigger]
            rejected_at(config, buffer, starts) && starts.len()
                == config.find_a_record_end_max_tries,
{
    lemma_first_from(buffer, 0, set![LF]);
    if let Some(i) = first_from(buffer, 0, set![LF]) {
        let all = lemma_search_gave_up(config, buffer, i, 0, seq![]);
    }
}

} // verus!
