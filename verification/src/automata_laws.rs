//! What holds of the automaton and of the scan of a record.

use vstd::prelude::*;

use crate::byte_search::first_from;
use crate::byte_search::lemma_first_from;
use crate::byte_search::lemma_first_from_extend;
use crate::byte_search::lemma_first_from_shift;
use crate::finite_automata::action_of;
use crate::finite_automata::lemma_run_bounds;
use crate::finite_automata::scan_of;
use crate::finite_automata::Cursor;
use crate::finite_automata::NfaAction;
use crate::finite_automata::NfaState;
use crate::finite_automata::ParserConfig;
use crate::finite_automata::ScanAction;
use crate::finite_automata::ScanOutcome;
use crate::finite_automata::Terminator;
use crate::finite_automata::CR;
use crate::finite_automata::LF;

verus! {

/// A transition that does not consume its byte does not move the position.
pub proof fn law_epsilon_does_not_move(config: ParserConfig, state: NfaState, c: u8)
    ensures
        ({
            let next = config.next_state(state, c);
            action_of(state, next, c) == NfaAction::Epsilon ==> scan_of(state, next)
                == ScanAction::NoScan
        }),
{
}

/// The position stays where it is for the transitions that do not consume their
/// byte and for those that end a record, and for no others. The line feed after a
/// `\r` that ended a record is left out: it is consumed and the position stays.
pub proof fn law_position_stays(config: ParserConfig, state: NfaState, c: u8)
    requires
        !(state == NfaState::CRLF && c == LF),
    ensures
        ({
            let next = config.next_state(state, c);
            scan_of(state, next) == ScanAction::NoScan <==> action_of(state, next, c)
                == NfaAction::Epsilon || next == NfaState::EndRecord
        }),
{
}

/// The state after the byte `c` has been consumed: the transitions that do not
/// consume it come first.
pub open spec fn consume(config: ParserConfig, state: NfaState, c: u8) -> NfaState
    decreases state.rank(),
{
    let next = config.next_state(state, c);
    if action_of(state, next, c) == NfaAction::Epsilon {
        consume(config, next, c)
    } else {
        next
    }
}

/// Where `\r`, `\n` and `\r\n` terminate records, each of them ends a field and its
/// record once, and the automaton is then where it is at the start of a record.
/// A delimiter or a quote that is itself one of these bytes is left out.
pub proof fn law_crlf_is_one_terminator(config: ParserConfig, state: NfaState, c: u8)
    requires
        config.term == Terminator::CRLF,
        config.delimiter != CR,
        config.delimiter != LF,
        !config.is_quote(CR),
        !config.is_quote(LF),
        state == NfaState::StartField || state == NfaState::InField || state
            == NfaState::InDoubleEscapedQuote,
    ensures
        consume(config, state, LF) == NfaState::EndRecord,
        consume(config, state, CR) == NfaState::CRLF,
        consume(config, NfaState::CRLF, LF) == NfaState::StartRecord,
        c != LF ==> consume(config, NfaState::CRLF, c) == consume(
            config,
            NfaState::StartRecord,
            c,
        ),
        consume(config, NfaState::EndRecord, c) == consume(config, NfaState::StartRecord, c),
{
    reveal_with_fuel(consume, 5);
}

/// Where one byte terminates records, it ends a field and its record once. A
/// delimiter or a quote that is itself this byte is left out.
pub proof fn law_any_is_one_terminator(config: ParserConfig, state: NfaState, t: u8, c: u8)
    requires
        config.term == Terminator::Any(t),
        config.delimiter != t,
        !config.is_quote(t),
        state == NfaState::StartField || state == NfaState::InField || state
            == NfaState::InDoubleEscapedQuote,
    ensures
        consume(config, state, t) == NfaState::EndRecord,
        consume(config, NfaState::EndRecord, c) == consume(config, NfaState::StartRecord, c),
{
    reveal_with_fuel(consume, 5);
}

/// In a quoted field, every byte but a quote and an escape is content: delimiters and
/// terminators too.
pub proof fn law_quoted_bytes_are_content(config: ParserConfig, c: u8)
    requires
        !config.is_quote(c),
        !config.is_escape(c),
    ensures
        config.next_state(NfaState::InQuotedField, c) == NfaState::InQuotedField,
        action_of(NfaState::InQuotedField, NfaState::InQuotedField, c) == NfaAction::CopyToOutput,
{
}

/// In a quoted field, two quotes are one byte of content, where a quote may be
/// doubled.
pub proof fn law_doubled_quote_is_content(config: ParserConfig, c: u8)
    requires
        config.double_quote,
        config.is_quote(c),
    ensures
        ({
            let first = config.next_state(NfaState::InQuotedField, c);
            let second = config.next_state(first, c);
            &&& action_of(NfaState::InQuotedField, first, c) == NfaAction::Discard
            &&& action_of(first, second, c) == NfaAction::CopyToOutput
            &&& second == NfaState::InQuotedField
        }),
{
}

/// In a quoted field, the byte that the automaton is given next after an escape is
/// content, whatever it is. Which byte that is in a scan, `law_scan_passes_on_from_an_escape`
/// says. An escape that is itself the quote is left out: it is read as a quote.
pub proof fn law_escaped_byte_is_content(config: ParserConfig, escape: u8, c: u8)
    requires
        config.is_escape(escape),
        !config.is_quote(escape),
    ensures
        ({
            let first = config.next_state(NfaState::InQuotedField, escape);
            let second = config.next_state(first, c);
            &&& action_of(NfaState::InQuotedField, first, escape) == NfaAction::Discard
            &&& action_of(first, second, c) == NfaAction::CopyToOutput
            &&& second == NfaState::InQuotedField
        }),
{
}

/// A scan goes on from an escape in a quoted field to the next byte at which it stops in
/// quotes, and takes that one as escaped; from there it goes on in the field. An escape
/// before an ordinary byte so makes content of the next quote or escape further on, and
/// where none follows the input is exhausted. An escape that is itself the quote is left
/// out.
pub proof fn law_scan_passes_on_from_an_escape(
    config: ParserConfig,
    input: Seq<u8>,
    at: nat,
    fields: nat,
)
    requires
        at < input.len(),
        config.is_escape(input[at as int]),
        !config.is_quote(input[at as int]),
    ensures
        ({
            let stops = config.stops(ScanAction::ScanQuoted);
            let in_quotes = |pos: nat|
                config.run(input, Cursor { pos, state: NfaState::InQuotedField, fields });
            match first_from(input, at + 1, stops) {
                Some(escaped) => match first_from(input, escaped + 1, stops) {
                    Some(next) => in_quotes(at) == in_quotes(next),
                    None => in_quotes(at) is Exhausted,
                },
                None => in_quotes(at) is Exhausted,
            }
        }),
{
    let stops = config.stops(ScanAction::ScanQuoted);
    lemma_first_from(input, at + 1, stops);
    if let Some(escaped) = first_from(input, at + 1, stops) {
        let behind = Cursor { pos: escaped, state: NfaState::InEscapedQuote, fields };
        assert(config.step(input, at, NfaState::InQuotedField) == Some(
            (escaped, NfaState::InEscapedQuote),
        ));
        assert(config.run(input, Cursor { pos: at, state: NfaState::InQuotedField, fields })
            == config.run(input, behind));
        if let Some(next) = first_from(input, escaped + 1, stops) {
            assert(config.step(input, escaped, NfaState::InEscapedQuote) == Some(
                (next, NfaState::InQuotedField),
            ));
        } else {
            assert(config.step(input, escaped, NfaState::InEscapedQuote) is None);
        }
    } else {
        assert(config.step(input, at, NfaState::InQuotedField) is None);
    }
}

/// Without quoting, the states of quoted fields are never entered.
pub proof fn law_no_quoting(config: ParserConfig, state: NfaState, c: u8)
    requires
        !config.quoting,
        state != NfaState::InQuotedField,
        state != NfaState::InEscapedQuote,
        state != NfaState::InDoubleEscapedQuote,
    ensures
        config.next_state(state, c) != NfaState::InQuotedField,
        config.next_state(state, c) != NfaState::InEscapedQuote,
        config.next_state(state, c) != NfaState::InDoubleEscapedQuote,
{
}

/// Without an escape byte, the state after an escape is never entered.
pub proof fn law_no_escape(config: ParserConfig, state: NfaState, c: u8)
    requires
        config.escape is None,
    ensures
        config.next_state(state, c) != NfaState::InEscapedQuote,
{
}

/// Without a comment byte, the state of a comment line is not entered.
pub proof fn law_no_comment(config: ParserConfig, state: NfaState, c: u8)
    requires
        config.comment is None,
        state != NfaState::InComment,
    ensures
        config.next_state(state, c) != NfaState::InComment,
{
}

/// In a field, a quoted field or a comment, a scan passes only over bytes that leave the
/// state as it is.
pub proof fn law_passed_bytes_keep_the_state(
    config: ParserConfig,
    from: NfaState,
    state: NfaState,
    c: u8,
)
    requires
        state == NfaState::InField || state == NfaState::InQuotedField || state
            == NfaState::InComment,
        !config.stops(scan_of(from, state)).contains(c),
    ensures
        config.next_state(state, c) == state,
{
}

/// The end of the record and its number of fields, for the run from `at` on,
/// however many fields it has; `None` where the input ends first.
pub open spec fn record_from(config: ParserConfig, input: Seq<u8>, at: Cursor) -> Option<(nat, nat)>
    decreases input.len() - at.pos, at.state.rank(),
{
    proof {
        config.lemma_step(input, at.pos, at.state);
    }
    match config.step(input, at.pos, at.state) {
        None => None,
        Some((to, next)) => if next.ends_record() {
            Some((to, at.moved(to, next).fields))
        } else {
            record_from(config, input, at.moved(to, next))
        },
    }
}

proof fn lemma_run_counts(config: ParserConfig, input: Seq<u8>, at: Cursor)
    ensures
        record_from(config, input, at) matches Some((end, fields)) ==> at.fields < fields,
        at.fields <= config.num_fields ==> match (
            config.run(input, at),
            record_from(config, input, at),
        ) {
            (ScanOutcome::Accepted(n), Some((end, fields))) => n == end && fields
                == config.num_fields,
            (ScanOutcome::Accepted(n), None) => false,
            (ScanOutcome::Rejected(n), Some((end, fields))) => if fields < config.num_fields {
                n == end
            } else {
                fields > config.num_fields && n <= end
            },
            (ScanOutcome::Rejected(n), None) => true,
            (ScanOutcome::Exhausted, r) => r is None,
        },
        record_from(config, input, at) matches Some((end, fields)) ==> at.pos <= end,
    decreases input.len() - at.pos, at.state.rank(),
{
    config.lemma_step(input, at.pos, at.state);
    if let Some((to, next)) = config.step(input, at.pos, at.state) {
        if !next.ends_record() {
            lemma_run_counts(config, input, at.moved(to, next));
        }
    }
}

/// A scan accepts the records that have the right number of fields, and ends where
/// they end. A record with fewer fields is rejected at its end, one with more at its
/// end or before. The input is exhausted only where the record does not end in it.
pub proof fn law_accepts_the_right_number_of_fields(config: ParserConfig, input: Seq<u8>)
    ensures
        match record_from(config, input, Cursor::start()) {
            Some((end, fields)) => if fields == config.num_fields {
                config.scan_outcome(input) == ScanOutcome::Accepted(end)
            } else if fields < config.num_fields {
                config.scan_outcome(input) == ScanOutcome::Rejected(end)
            } else {
                config.scan_outcome(input) matches ScanOutcome::Rejected(n) && n <= end
            },
            None => config.scan_outcome(input) !is Accepted,
        },
{
    lemma_run_counts(config, input, Cursor::start());
}

proof fn lemma_run_moves_on(config: ParserConfig, input: Seq<u8>, at: Cursor)
    requires
        at.pos == 0 ==> at.state == NfaState::StartRecord || (at.state == NfaState::StartField
            && input.len() > 0 && !config.term.terminates(input[0])),
    ensures
        config.run(input, at) !is Exhausted ==> config.run(input, at) != ScanOutcome::Accepted(0)
            && config.run(input, at) != ScanOutcome::Rejected(0),
    decreases input.len() - at.pos, at.state.rank(),
{
    config.lemma_step(input, at.pos, at.state);
    if let Some((to, next)) = config.step(input, at.pos, at.state) {
        if !next.ends_record() {
            lemma_run_moves_on(config, input, at.moved(to, next));
        }
    }
}

/// A scan that accepts or rejects a record has moved on by one byte at least, and
/// stays in the input.
pub proof fn law_scan_moves_on(config: ParserConfig, input: Seq<u8>)
    ensures
        match config.scan_outcome(input) {
            ScanOutcome::Accepted(n) => 0 < n <= input.len(),
            ScanOutcome::Rejected(n) => 0 < n <= input.len(),
            ScanOutcome::Exhausted => true,
        },
{
    lemma_run_moves_on(config, input, Cursor::start());
    lemma_run_bounds(config, input, Cursor::start());
}

/// Whether a record ends at `n`: the byte there is its terminator, or `n` comes
/// right after the `\r` that terminates it.
pub open spec fn at_record_end(config: ParserConfig, input: Seq<u8>, n: nat) -> bool {
    let by_cr = |i: int| config.term == Terminator::CRLF && input[i] == CR;
    ||| n < input.len() && config.term.terminates(input[n as int]) && !by_cr(n as int)
    ||| 0 < n <= input.len() && by_cr(n - 1)
}

proof fn lemma_run_ends_at_terminator(config: ParserConfig, input: Seq<u8>, at: Cursor)
    requires
        at.state == NfaState::EndFieldTerm || at.state == NfaState::InRecordTerm ==> at.pos
            < input.len() && config.term.terminates(input[at.pos as int]),
    ensures
        config.run(input, at) matches ScanOutcome::Accepted(n) ==> at_record_end(config, input, n),
    decreases input.len() - at.pos, at.state.rank(),
{
    config.lemma_step(input, at.pos, at.state);
    if let Some((to, next)) = config.step(input, at.pos, at.state) {
        if !next.ends_record() {
            lemma_run_ends_at_terminator(config, input, at.moved(to, next));
        }
    }
}

/// A scan that accepts a record ends at a record end.
pub proof fn law_scan_ends_at_record_end(config: ParserConfig, input: Seq<u8>)
    ensures
        config.scan_outcome(input) matches ScanOutcome::Accepted(n) ==> at_record_end(
            config,
            input,
            n,
        ),
{
    lemma_run_ends_at_terminator(config, input, Cursor::start());
}

proof fn lemma_run_shift(config: ParserConfig, input: Seq<u8>, by: nat, at: Cursor)
    requires
        by <= input.len(),
    ensures
        config.run(input, Cursor { pos: by + at.pos, state: at.state, fields: at.fields })
            == further(config.run(input.skip(by as int), at), by),
    decreases input.len() - by - at.pos, at.state.rank(),
{
    let tail = input.skip(by as int);
    config.lemma_step(tail, at.pos, at.state);
    if at.pos < tail.len() {
        assert(tail[at.pos as int] == input[(by + at.pos) as int]);
        let next = config.next_state(at.state, tail[at.pos as int]);
        lemma_first_from_shift(input, by, at.pos + 1, config.stops(scan_of(at.state, next)));
    }
    if let Some((to, next)) = config.step(tail, at.pos, at.state) {
        assert(config.step(input, by + at.pos, at.state) == Some((by + to, next)));
        if !next.ends_record() {
            lemma_run_shift(config, input, by, at.moved(to, next));
        }
    }
}

/// The same outcome, further on.
pub open spec fn further(r: ScanOutcome, by: nat) -> ScanOutcome {
    match r {
        ScanOutcome::Accepted(n) => ScanOutcome::Accepted(by + n),
        ScanOutcome::Rejected(n) => ScanOutcome::Rejected(by + n),
        ScanOutcome::Exhausted => ScanOutcome::Exhausted,
    }
}

/// Where `\r` and `\n` terminate records, it makes no difference whether a scan starts
/// at a line feed or at the `\r` before it.
pub proof fn law_scan_may_start_at_crlf(config: ParserConfig, input: Seq<u8>)
    requires
        config.term == Terminator::CRLF,
        input.len() > 1,
        input[0] == CR,
        input[1] == LF,
    ensures
        config.scan_outcome(input) == further(config.scan_outcome(input.skip(1)), 1),
{
    let stops = config.stops(ScanAction::ScanUnquoted);
    lemma_first_from(input, 1, stops);
    assert(stops.contains(input[1]));
    assert(config.step(input, 0, NfaState::StartRecord) == Some((1nat, NfaState::StartRecord)));
    lemma_run_shift(config, input, 1, Cursor::start());
}

proof fn lemma_run_extend(config: ParserConfig, input: Seq<u8>, more: Seq<u8>, at: Cursor)
    requires
        config.run(input, at) !is Exhausted,
    ensures
        config.run(input + more, at) == config.run(input, at),
    decreases input.len() - at.pos, at.state.rank(),
{
    config.lemma_step(input, at.pos, at.state);
    let all = input + more;
    if let Some((to, next)) = config.step(input, at.pos, at.state) {
        assert(all[at.pos as int] == input[at.pos as int]);
        let stops = config.stops(scan_of(at.state, next));
        if first_from(input, at.pos + 1, stops) is Some {
            lemma_first_from_extend(input, more, at.pos + 1, stops);
        }
        assert(config.step(all, at.pos, at.state) == Some((to, next)));
        if !next.ends_record() {
            if !(next.ends_field() && at.fields + 1 > config.num_fields) {
                lemma_run_extend(config, input, more, at.moved(to, next));
            }
        }
    }
}

/// A record that was accepted or rejected stays so when more bytes follow.
pub proof fn law_scan_outcome_is_stable(config: ParserConfig, input: Seq<u8>, more: Seq<u8>)
    requires
        config.scan_outcome(input) !is Exhausted,
    ensures
        config.scan_outcome(input + more) == config.scan_outcome(input),
{
    lemma_run_extend(config, input, more, Cursor::start());
}

} // verus!
