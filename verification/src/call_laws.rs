//! What the calls of the automaton return.

use vstd::prelude::*;

use crate::byte_search::lemma_first_from;
use crate::finite_automata::scan;
use crate::finite_automata::FindARecordEndError;
use crate::finite_automata::FiniteAutomata;
use crate::finite_automata::Nfa;
use crate::finite_automata::NfaAction;
use crate::finite_automata::NfaState;
use crate::finite_automata::Offset;
use crate::finite_automata::ParserConfig;
use crate::finite_automata::ScanAction;
use crate::finite_automata::ScanOutcome;
use crate::finite_automata::ScanRecordError;
use crate::finite_automata::SearchOutcome;
use crate::finite_automata::Terminator;
use crate::finite_automata::BACKSLASH;
use crate::finite_automata::COMMA;
use crate::finite_automata::CR;
use crate::finite_automata::LF;
use crate::finite_automata::QUOTE;
use crate::reading_laws::is_first;
use crate::reading_laws::is_terminator;
use crate::reading_laws::stops_in_quotes;
use crate::reading_laws::stops_outside;

verus! {

/// `scan_record` returns the offset at which the record was accepted, the offset at which
/// it was rejected, or that the input ended first.
pub proof fn law_scan_record_returns_the_outcome(
    nfa: Nfa,
    input: &[u8],
    r: Result<Offset, ScanRecordError>,
)
    requires
        call_ensures(<Nfa as FiniteAutomata>::scan_record, (&nfa, input), r),
    ensures
        match nfa.config.scan_outcome(input@) {
            ScanOutcome::Accepted(n) => r matches Ok(offset) && offset.0 == n,
            ScanOutcome::Rejected(n) => r matches Err(ScanRecordError::WrongNumOfFields(offset))
                && offset.0 == n,
            ScanOutcome::Exhausted => r == Err::<Offset, _>(ScanRecordError::InputExhausted),
        },
{
}

/// `find_a_record_end` returns the offset that was found, or why none was.
pub proof fn law_find_a_record_end_returns_the_outcome(
    nfa: Nfa,
    buffer: &[u8],
    r: Result<Offset, FindARecordEndError>,
)
    requires
        call_ensures(<Nfa as FiniteAutomata>::find_a_record_end, (&nfa, buffer), r),
    ensures
        match nfa.config.search_outcome(buffer@) {
            SearchOutcome::Found(n) => r matches Ok(offset) && offset.0 == n,
            SearchOutcome::GaveUp => r == Err::<Offset, _>(FindARecordEndError::ExceededMaxTries),
            SearchOutcome::Exhausted => r == Err::<Offset, _>(FindARecordEndError::InputExhausted),
        },
{
}

/// Whether `r` is a distance to the first byte behind the first of `buffer` that `wanted`
/// holds of.
pub open spec fn is_way_to(
    buffer: Seq<u8>,
    wanted: spec_fn(u8) -> bool,
    r: Option<Offset>,
) -> bool {
    is_first(
        buffer,
        1,
        wanted,
        match r {
            Some(offset) => Some(offset.0 as nat),
            None => None,
        },
    )
}

/// `scan` goes on to the first byte behind the first of the buffer that the scan is for: a
/// line feed in a comment, a double quote or a backslash in quotes, a double quote, a comma
/// or a line feed outside of them. Without a scan it goes on by one byte, or not at all.
pub proof fn law_scan_goes_on_to_the_first(
    scan_action: ScanAction,
    buffer: &[u8],
    r: Option<Offset>,
)
    requires
        call_ensures(scan, (&scan_action, buffer), r),
    ensures
        match scan_action {
            ScanAction::AdvanceOne => r matches Some(offset) && offset.0 == 1,
            ScanAction::NoScan => r matches Some(offset) && offset.0 == 0,
            ScanAction::ScanComment => is_way_to(buffer@, |b: u8| b == LF, r),
            ScanAction::ScanQuoted => is_way_to(buffer@, |b: u8| b == QUOTE || b == BACKSLASH, r),
            ScanAction::ScanUnquoted => is_way_to(
                buffer@,
                |b: u8| b == QUOTE || b == COMMA || b == LF,
                r,
            ),
        },
{
    let targets = scan_action.targets();
    lemma_first_from(buffer@, 1, targets);
    if r is None {
        assert(forall|j: int| 1 <= j < buffer@.len() ==> !targets.contains(#[trigger] buffer@[j]));
    }
}

/// `scan_on` goes on to the first byte behind the first of the buffer at which the scan
/// stops: a line feed in a comment; in quotes also the configured quote and escape, and
/// outside of them the configured quote, delimiter and terminators.
pub proof fn law_scan_on_goes_on_to_the_first(
    nfa: Nfa,
    scan_action: ScanAction,
    buffer: &[u8],
    r: Option<Offset>,
)
    requires
        call_ensures(Nfa::scan_on, (&nfa, &scan_action, buffer), r),
    ensures
        match scan_action {
            ScanAction::AdvanceOne => r matches Some(offset) && offset.0 == 1,
            ScanAction::NoScan => r matches Some(offset) && offset.0 == 0,
            ScanAction::ScanComment => is_way_to(buffer@, |b: u8| b == LF, r),
            ScanAction::ScanQuoted => is_way_to(
                buffer@,
                |b: u8| stops_in_quotes(nfa.config, b),
                r,
            ),
            ScanAction::ScanUnquoted => is_way_to(
                buffer@,
                |b: u8| stops_outside(nfa.config, b),
                r,
            ),
        },
{
    let stops = nfa.config.stops(scan_action);
    lemma_first_from(buffer@, 1, stops);
    if r is None {
        assert(forall|j: int| 1 <= j < buffer@.len() ==> !stops.contains(#[trigger] buffer@[j]));
    }
}

/// `equals` tells whether a byte ends a record, and `is_crlf` which terminator it is.
pub proof fn law_terminators(term: Terminator, b: u8, equals: bool, is_crlf: bool)
    requires
        call_ensures(Terminator::equals, (&term, b), equals),
        call_ensures(Terminator::is_crlf, (&term,), is_crlf),
    ensures
        is_crlf == (term is CRLF),
        equals == (match term {
            Terminator::CRLF => b == 0x0d || b == 0x0a,
            Terminator::Any(t) => b == t,
        }),
{
}

/// A field has been parsed where a delimiter or the end of the record was, and nowhere
/// else.
pub proof fn law_field_final_states(state: NfaState, r: bool)
    requires
        call_ensures(NfaState::is_field_final, (&state,), r),
    ensures
        r == (state == NfaState::EndFieldDelim || state == NfaState::EndRecord || state
            == NfaState::CRLF),
{
}

/// What the automaton does with `c` in a field outside of quotes: a delimiter ends the
/// field, a terminator ends it and is looked at again, any other byte is copied.
pub open spec fn in_a_field(config: ParserConfig, c: u8) -> (NfaState, NfaAction, ScanAction) {
    if c == config.delimiter {
        (NfaState::EndFieldDelim, NfaAction::Discard, ScanAction::ScanUnquoted)
    } else if is_terminator(config, c) {
        (NfaState::EndFieldTerm, NfaAction::Epsilon, ScanAction::NoScan)
    } else {
        (NfaState::InField, NfaAction::CopyToOutput, ScanAction::ScanUnquoted)
    }
}

/// Before a record, terminators are discarded, a comment is entered, and any other byte is
/// the first of a field, which is looked at again. A comment is left with its line feed.
pub proof fn law_transitions_before_a_record(
    nfa: Nfa,
    state: NfaState,
    c: u8,
    r: (NfaState, NfaAction, ScanAction),
)
    requires
        call_ensures(Nfa::transition_nfa, (&nfa, state, c), r),
    ensures
        state == NfaState::StartRecord && is_terminator(nfa.config, c) ==> r == (
            NfaState::StartRecord,
            NfaAction::Discard,
            ScanAction::ScanUnquoted,
        ),
        state == NfaState::StartRecord && !is_terminator(nfa.config, c) && nfa.config.comment
            == Some(c) ==> r == (NfaState::InComment, NfaAction::Discard, ScanAction::ScanComment),
        state == NfaState::StartRecord && !is_terminator(nfa.config, c) && nfa.config.comment
            != Some(c) ==> r == (NfaState::StartField, NfaAction::Epsilon, ScanAction::NoScan),
        state == NfaState::InComment && c == LF ==> r == (
            NfaState::StartRecord,
            NfaAction::Discard,
            ScanAction::ScanUnquoted,
        ),
        state == NfaState::InComment && c != LF ==> r == (
            NfaState::InComment,
            NfaAction::Discard,
            ScanAction::ScanComment,
        ),
{
}

/// In a field, a quote counts at its start, where it opens a quoted field, and behind the
/// quote that closed it, where it is the second of a doubled one. Otherwise its bytes are
/// those of a field without quotes.
pub proof fn law_transitions_in_a_field(
    nfa: Nfa,
    state: NfaState,
    c: u8,
    r: (NfaState, NfaAction, ScanAction),
)
    requires
        call_ensures(Nfa::transition_nfa, (&nfa, state, c), r),
    ensures
        ({
            let quote = nfa.config.quoting && c == nfa.config.quote;
            &&& state == NfaState::StartField && quote ==> r == (
                NfaState::InQuotedField,
                NfaAction::Discard,
                ScanAction::ScanQuoted,
            )
            &&& state == NfaState::StartField && !quote ==> r == in_a_field(nfa.config, c)
            &&& state == NfaState::InField ==> r == in_a_field(nfa.config, c)
            &&& state == NfaState::InDoubleEscapedQuote && quote && nfa.config.double_quote ==> r
                == (NfaState::InQuotedField, NfaAction::CopyToOutput, ScanAction::ScanQuoted)
            &&& state == NfaState::InDoubleEscapedQuote && !(quote && nfa.config.double_quote)
                ==> r == in_a_field(nfa.config, c)
        }),
{
}

/// In quotes, a quote and an escape are discarded, and any other byte is copied, the one
/// that the escape is for too. An escape that is the quote is read as a quote.
pub proof fn law_transitions_in_quotes(
    nfa: Nfa,
    state: NfaState,
    c: u8,
    r: (NfaState, NfaAction, ScanAction),
)
    requires
        call_ensures(Nfa::transition_nfa, (&nfa, state, c), r),
    ensures
        ({
            let quote = nfa.config.quoting && c == nfa.config.quote;
            let escape = nfa.config.quoting && nfa.config.escape == Some(c);
            let copied = (
                NfaState::InQuotedField,
                NfaAction::CopyToOutput,
                ScanAction::ScanQuoted,
            );
            &&& state == NfaState::InQuotedField && quote ==> r == (
                NfaState::InDoubleEscapedQuote,
                NfaAction::Discard,
                ScanAction::AdvanceOne,
            )
            &&& state == NfaState::InQuotedField && !quote && escape ==> r == (
                NfaState::InEscapedQuote,
                NfaAction::Discard,
                ScanAction::ScanQuoted,
            )
            &&& state == NfaState::InQuotedField && !quote && !escape ==> r == copied
            &&& state == NfaState::InEscapedQuote ==> r == copied
        }),
{
}

/// At the end of a field nothing is consumed. The terminator is discarded once at the end
/// of the record; where it is a `\r` that a `\n` may follow, so is that `\n`.
pub proof fn law_transitions_at_an_end(
    nfa: Nfa,
    state: NfaState,
    c: u8,
    r: (NfaState, NfaAction, ScanAction),
)
    requires
        call_ensures(Nfa::transition_nfa, (&nfa, state, c), r),
    ensures
        state == NfaState::EndFieldDelim ==> r == (
            NfaState::StartField,
            NfaAction::Epsilon,
            ScanAction::NoScan,
        ),
        state == NfaState::EndFieldTerm ==> r == (
            NfaState::InRecordTerm,
            NfaAction::Epsilon,
            ScanAction::NoScan,
        ),
        state == NfaState::InRecordTerm && nfa.config.term is CRLF && c == CR ==> r == (
            NfaState::CRLF,
            NfaAction::Discard,
            ScanAction::AdvanceOne,
        ),
        state == NfaState::InRecordTerm && !(nfa.config.term is CRLF && c == CR) ==> r == (
            NfaState::EndRecord,
            NfaAction::Discard,
            ScanAction::NoScan,
        ),
        state == NfaState::EndRecord ==> r == (
            NfaState::StartRecord,
            NfaAction::Epsilon,
            ScanAction::NoScan,
        ),
        state == NfaState::CRLF && c == LF ==> r == (
            NfaState::StartRecord,
            NfaAction::Discard,
            ScanAction::NoScan,
        ),
        state == NfaState::CRLF && c != LF ==> r == (
            NfaState::StartRecord,
            NfaAction::Epsilon,
            ScanAction::NoScan,
        ),
{
}

/// A configuration that is not given is that of comma-separated records of eight fields
/// that a line break of any kind ends.
pub proof fn law_the_default_configuration(nfa: Nfa, config: ParserConfig)
    requires
        call_ensures(<Nfa as Default>::default, (), nfa),
        call_ensures(<ParserConfig as Default>::default, (), config),
    ensures
        nfa.config == config,
        config == (ParserConfig {
            delimiter: 0x2c,
            term: Terminator::CRLF,
            quote: 0x22,
            escape: None,
            double_quote: true,
            comment: None,
            quoting: true,
            num_fields: 8,
            find_a_record_end_max_tries: 5,
            find_a_record_end_required_good_scans: 3,
        }),
{
}

} // verus!
