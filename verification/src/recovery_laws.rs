//! How the search for a record end goes on: what it answers after a row of scans, and how
//! a search after a rejected record is a search in what is left.

use vstd::prelude::*;

use crate::automata_laws::law_scan_moves_on;
use crate::byte_search::first_from;
use crate::byte_search::lemma_first_from;
use crate::byte_search::lemma_first_from_is;
use crate::byte_search::lemma_first_from_shift;
use crate::finite_automata::scan_of;
use crate::finite_automata::Cursor;
use crate::finite_automata::ParserConfig;
use crate::finite_automata::ScanOutcome;
use crate::finite_automata::SearchOutcome;
use crate::finite_automata::LF;
use crate::search_laws::record_between;
use crate::search_laws::records_between;

verus! {

/// The same configuration with other settings for the search.
pub open spec fn with_search(config: ParserConfig, max_tries: u32, good_scans: u32) -> ParserConfig {
    ParserConfig {
        delimiter: config.delimiter,
        term: config.term,
        quote: config.quote,
        escape: config.escape,
        double_quote: config.double_quote,
        comment: config.comment,
        quoting: config.quoting,
        num_fields: config.num_fields,
        find_a_record_end_max_tries: max_tries,
        find_a_record_end_required_good_scans: good_scans,
    }
}

proof fn lemma_run_ignores_search(
    config: ParserConfig,
    max_tries: u32,
    good_scans: u32,
    input: Seq<u8>,
    at: Cursor,
)
    ensures
        with_search(config, max_tries, good_scans).run(input, at) == config.run(input, at),
    decreases input.len() - at.pos, at.state.rank(),
{
    let other = with_search(config, max_tries, good_scans);
    config.lemma_step(input, at.pos, at.state);
    if at.pos < input.len() {
        let c = input[at.pos as int];
        assert(other.next_state(at.state, c) == config.next_state(at.state, c));
        let next = config.next_state(at.state, c);
        let action = scan_of(at.state, next);
        assert(other.stops(action) =~= config.stops(action));
    }
    assert(other.step(input, at.pos, at.state) == config.step(input, at.pos, at.state));
    if let Some((to, next)) = config.step(input, at.pos, at.state) {
        if !next.ends_record() {
            lemma_run_ignores_search(config, max_tries, good_scans, input, at.moved(to, next));
        }
    }
}

/// The scan of a record does not depend on the settings for the search.
pub proof fn law_scans_ignore_the_search_settings(
    config: ParserConfig,
    max_tries: u32,
    good_scans: u32,
    input: Seq<u8>,
)
    ensures
        with_search(config, max_tries, good_scans).scan_outcome(input) == config.scan_outcome(
            input,
        ),
{
    lemma_run_ignores_search(config, max_tries, good_scans, input, Cursor::start());
}

/// The same outcome of a search, further on.
pub open spec fn found_further(r: SearchOutcome, by: nat) -> SearchOutcome {
    match r {
        SearchOutcome::Found(n) => SearchOutcome::Found(by + n),
        SearchOutcome::GaveUp => SearchOutcome::GaveUp,
        SearchOutcome::Exhausted => SearchOutcome::Exhausted,
    }
}

proof fn lemma_search_shift(
    config: ParserConfig,
    buffer: Seq<u8>,
    by: nat,
    at: nat,
    good: nat,
    tries: nat,
)
    requires
        by + at <= buffer.len(),
        config.find_a_record_end_max_tries > 0,
    ensures
        ({
            let fewer = with_search(
                config,
                (config.find_a_record_end_max_tries - 1) as u32,
                config.find_a_record_end_required_good_scans,
            );
            config.search(buffer, by + at, good, tries + 1) == found_further(
                fewer.search(buffer.skip(by as int), at, good, tries),
                by,
            )
        }),
    decreases
            config.find_a_record_end_max_tries - tries,
            config.find_a_record_end_required_good_scans - good,
{
    let required = config.find_a_record_end_required_good_scans;
    let max = (config.find_a_record_end_max_tries - 1) as u32;
    if good < required && tries < max {
        let tail = buffer.skip(by as int);
        let rest = tail.skip(at as int);
        assert(buffer.skip((by + at) as int) =~= rest);
        law_scans_ignore_the_search_settings(config, max, required, rest);
        law_scan_moves_on(config, rest);
        match config.scan_outcome(rest) {
            ScanOutcome::Accepted(n) => {
                lemma_search_shift(config, buffer, by, at + n, good + 1, tries);
            },
            ScanOutcome::Rejected(n) => {
                lemma_first_from(tail, at + n + 1, set![LF]);
                lemma_first_from_shift(buffer, by, at + n + 1, set![LF]);
                if let Some(i) = first_from(tail, at + n + 1, set![LF]) {
                    lemma_search_shift(config, buffer, by, i, 0, tries + 1);
                }
            },
            ScanOutcome::Exhausted => {},
        }
    }
}

proof fn lemma_row(config: ParserConfig, buffer: Seq<u8>, ends: Seq<nat>, tries: nat)
    requires
        ends.len() > 0,
        records_between(config, buffer, ends),
        ends.len() - 1 <= config.find_a_record_end_required_good_scans,
        tries < config.find_a_record_end_max_tries,
    ensures
        config.search(buffer, ends[0], 0, tries) == config.search(
            buffer,
            ends.last(),
            (ends.len() - 1) as nat,
            tries,
        ),
    decreases ends.len(),
{
    if ends.len() > 1 {
        let before = ends.drop_last();
        assert forall|i: int, j: int| 0 <= i && j == i + 1 && j < before.len() implies record_between(
            config,
            buffer,
            #[trigger] before[i],
            #[trigger] before[j],
        ) by {
            assert(record_between(config, buffer, ends[i], ends[j]));
        }
        lemma_row(config, buffer, before, tries);
        let k = ends.len() - 2;
        assert(record_between(config, buffer, ends[k], ends[k + 1]));
        assert(before.last() == ends[k]);
    }
}

/// Whether `at` is the first line feed of `buffer`.
pub open spec fn is_first_line_feed(buffer: Seq<u8>, at: nat) -> bool {
    &&& at < buffer.len()
    &&& buffer[at as int] == LF
    &&& forall|j: int| 0 <= j < at ==> buffer[j] != LF
}

/// Without a line feed the search has nowhere to start: the input is exhausted.
pub proof fn law_no_line_feed_exhausts_the_search(config: ParserConfig, buffer: Seq<u8>)
    requires
        forall|j: int| 0 <= j < buffer.len() ==> buffer[j] != LF,
    ensures
        config.search_outcome(buffer) is Exhausted,
{
    lemma_first_from(buffer, 0, set![LF]);
}

/// Where no try is allowed and a scan is required, the search gives up at the first line
/// feed.
pub proof fn law_no_try_gives_up(config: ParserConfig, buffer: Seq<u8>, at: nat)
    requires
        is_first_line_feed(buffer, at),
        config.find_a_record_end_max_tries == 0,
        config.find_a_record_end_required_good_scans > 0,
    ensures
        config.search_outcome(buffer) is GaveUp,
{
    lemma_first_from_is(buffer, 0, set![LF], at);
}

/// Where as many records as are required follow each other from the first line feed, the
/// search finds the end of the last of them. A configuration that requires a scan and
/// allows no try is left out.
pub proof fn law_a_row_of_good_records_is_found(
    config: ParserConfig,
    buffer: Seq<u8>,
    ends: Seq<nat>,
)
    requires
        ends.len() == config.find_a_record_end_required_good_scans + 1,
        is_first_line_feed(buffer, ends[0]),
        records_between(config, buffer, ends),
        config.find_a_record_end_max_tries > 0 || ends.len() == 1,
    ensures
        config.search_outcome(buffer) == SearchOutcome::Found(ends.last()),
{
    lemma_first_from_is(buffer, 0, set![LF], ends[0]);
    if ends.len() > 1 {
        lemma_row(config, buffer, ends, 0);
    }
}

/// Where a scan behind fewer good records than are required is exhausted, so is the
/// search.
pub proof fn law_an_exhausted_scan_exhausts_the_search(
    config: ParserConfig,
    buffer: Seq<u8>,
    ends: Seq<nat>,
)
    requires
        0 < ends.len() <= config.find_a_record_end_required_good_scans,
        is_first_line_feed(buffer, ends[0]),
        records_between(config, buffer, ends),
        config.find_a_record_end_max_tries > 0,
        config.scan_outcome(buffer.skip(ends.last() as int)) is Exhausted,
    ensures
        config.search_outcome(buffer) is Exhausted,
{
    lemma_first_from_is(buffer, 0, set![LF], ends[0]);
    lemma_row(config, buffer, ends, 0);
}

/// Where a record is rejected behind any number of good ones that is less than required,
/// the search starts again in what follows the byte at which it was rejected, as a search
/// that has one try less: the good scans before do not count, and what follows is searched
/// as if it stood alone. Behind the last byte there is nothing to search.
pub proof fn law_a_rejected_record_starts_the_search_again(
    config: ParserConfig,
    buffer: Seq<u8>,
    ends: Seq<nat>,
)
    requires
        0 < ends.len() <= config.find_a_record_end_required_good_scans,
        is_first_line_feed(buffer, ends[0]),
        records_between(config, buffer, ends),
        config.find_a_record_end_max_tries > 0,
        config.scan_outcome(buffer.skip(ends.last() as int)) is Rejected,
    ensures
        ({
            let at = ends.last() + config.scan_outcome(
                buffer.skip(ends.last() as int),
            )->Rejected_0;
            let fewer = with_search(
                config,
                (config.find_a_record_end_max_tries - 1) as u32,
                config.find_a_record_end_required_good_scans,
            );
            &&& at <= buffer.len()
            &&& config.search_outcome(buffer) == if at < buffer.len() {
                found_further(fewer.search_outcome(buffer.skip((at + 1) as int)), at + 1)
            } else {
                SearchOutcome::Exhausted
            }
        }),
{
    lemma_first_from_is(buffer, 0, set![LF], ends[0]);
    lemma_row(config, buffer, ends, 0);
    let last = ends.last();
    if ends.len() > 1 {
        let k = ends.len() - 2;
        assert(record_between(config, buffer, ends[k], ends[k + 1]));
    }
    let rest = buffer.skip(last as int);
    law_scan_moves_on(config, rest);
    let at = last + config.scan_outcome(rest)->Rejected_0;
    lemma_first_from(buffer, at + 1, set![LF]);
    if at < buffer.len() {
        let tail = buffer.skip((at + 1) as int);
        lemma_first_from_shift(buffer, at + 1, 0, set![LF]);
        lemma_first_from(tail, 0, set![LF]);
        if let Some(i) = first_from(tail, 0, set![LF]) {
            lemma_search_shift(config, buffer, at + 1, i, 0, 0);
        }
    }
}

/// Whether `at` is where the input of a search runs out, behind the good records that end
/// at `ends`: the scan there is exhausted, or it rejects a record behind which there is no
/// line feed.
pub open spec fn runs_out_behind(config: ParserConfig, buffer: Seq<u8>, ends: Seq<nat>) -> bool {
    match config.scan_outcome(buffer.skip(ends.last() as int)) {
        ScanOutcome::Accepted(_) => false,
        ScanOutcome::Rejected(n) => forall|j: int|
            ends.last() + n < j < buffer.len() ==> buffer[j] != LF,
        ScanOutcome::Exhausted => true,
    }
}

proof fn lemma_search_runs_out(
    config: ParserConfig,
    buffer: Seq<u8>,
    ends: Seq<nat>,
    tries: nat,
) -> (all: Seq<nat>)
    requires
        ends.len() > 0,
        ends.last() <= buffer.len(),
        ends[0] < buffer.len(),
        buffer[ends[0] as int] == LF,
        records_between(config, buffer, ends),
        ends.len() - 1 <= config.find_a_record_end_required_good_scans,
    ensures
        config.search(buffer, ends.last(), (ends.len() - 1) as nat, tries) is Exhausted ==> {
            &&& 0 < all.len() <= config.find_a_record_end_required_good_scans
            &&& all[0] < buffer.len()
            &&& buffer[all[0] as int] == LF
            &&& records_between(config, buffer, all)
            &&& runs_out_behind(config, buffer, all)
        },
    decreases
            config.find_a_record_end_max_tries - tries,
            config.find_a_record_end_required_good_scans + 1 - ends.len(),
{
    let at = ends.last();
    if ends.len() - 1 >= config.find_a_record_end_required_good_scans || tries
        >= config.find_a_record_end_max_tries {
        ends
    } else {
        let rest = buffer.skip(at as int);
        law_scan_moves_on(config, rest);
        match config.scan_outcome(rest) {
            ScanOutcome::Accepted(n) => {
                let longer = ends.push(at + n);
                assert forall|i: int, j: int|
                    0 <= i && j == i + 1 && j < longer.len() implies record_between(
                    config,
                    buffer,
                    #[trigger] longer[i],
                    #[trigger] longer[j],
                ) by {
                    assert(longer[i] == ends[i]);
                    if j < ends.len() {
                        assert(longer[j] == ends[j]);
                    }
                }
                lemma_search_runs_out(config, buffer, longer, tries)
            },
            ScanOutcome::Rejected(n) => {
                lemma_first_from(buffer, at + n + 1, set![LF]);
                match first_from(buffer, at + n + 1, set![LF]) {
                    Some(i) => lemma_search_runs_out(config, buffer, seq![i], tries + 1),
                    None => {
                        assert(set![LF].contains(LF));
                        ends
                    },
                }
            },
            ScanOutcome::Exhausted => ends,
        }
    }
}

/// The search answers that the input is exhausted only where it is: there is no line feed,
/// or behind good records from a line feed on, fewer than are required, a scan is itself
/// exhausted or rejects a record behind which no line feed follows.
pub proof fn law_the_search_is_exhausted_only_with_its_input(
    config: ParserConfig,
    buffer: Seq<u8>,
)
    ensures
        config.search_outcome(buffer) is Exhausted ==> {
            ||| forall|j: int| 0 <= j < buffer.len() ==> buffer[j] != LF
            ||| exists|ends: Seq<nat>| #[trigger]
                records_between(config, buffer, ends) && 0 < ends.len()
                    <= config.find_a_record_end_required_good_scans && ends[0] < buffer.len()
                    && buffer[ends[0] as int] == LF && runs_out_behind(config, buffer, ends)
        },
{
    lemma_first_from(buffer, 0, set![LF]);
    match first_from(buffer, 0, set![LF]) {
        Some(i) => {
            let all = lemma_search_runs_out(config, buffer, seq![i], 0);
        },
        None => {
            assert(set![LF].contains(LF));
        },
    }
}

} // verus!
