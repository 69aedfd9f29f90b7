//! How a scan reads any input: what it passes over before a record, where a field ends,
//! what quotes enclose, and where the record ends.

use vstd::prelude::*;

use crate::byte_search::first_from;
use crate::byte_search::lemma_first_from;
use crate::finite_automata::scan_of;
use crate::finite_automata::Cursor;
use crate::finite_automata::NfaState;
use crate::finite_automata::ParserConfig;
use crate::finite_automata::ScanAction;
use crate::finite_automata::ScanOutcome;
use crate::finite_automata::Terminator;
use crate::finite_automata::BACKSLASH;
use crate::finite_automata::COMMA;
use crate::finite_automata::CR;
use crate::finite_automata::LF;
use crate::finite_automata::QUOTE;

verus! {

/// Whether `b` ends a record.
pub open spec fn is_terminator(config: ParserConfig, b: u8) -> bool {
    match config.term {
        Terminator::CRLF => b == CR || b == LF,
        Terminator::Any(t) => b == t,
    }
}

/// Whether `b` ends a field outside of quotes.
pub open spec fn ends_a_field(config: ParserConfig, b: u8) -> bool {
    b == config.delimiter || is_terminator(config, b)
}

/// Whether a scan outside of quotes stops at `b`.
pub open spec fn stops_outside(config: ParserConfig, b: u8) -> bool {
    b == QUOTE || b == COMMA || b == LF || b == config.quote || ends_a_field(config, b)
}

/// Whether a scan in quotes stops at `b`.
pub open spec fn stops_in_quotes(config: ParserConfig, b: u8) -> bool {
    b == QUOTE || b == BACKSLASH || b == config.quote || config.escape == Some(b)
}

/// Whether `found` is the first place of `input`, at `from` or behind it, with a byte
/// that `wanted` holds of; `None` where there is none.
pub open spec fn is_first(
    input: Seq<u8>,
    from: nat,
    wanted: spec_fn(u8) -> bool,
    found: Option<nat>,
) -> bool {
    match found {
        Some(i) => {
            &&& from <= i < input.len()
            &&& wanted(input[i as int])
            &&& forall|j: int| from <= j < i ==> !wanted(#[trigger] input[j])
        },
        None => forall|j: int| from <= j < input.len() ==> !wanted(#[trigger] input[j]),
    }
}

/// Whether a scan outside of quotes that looks on from `from` stops at `found`.
pub open spec fn lands_outside(
    config: ParserConfig,
    input: Seq<u8>,
    from: nat,
    found: Option<nat>,
) -> bool {
    is_first(input, from, |b: u8| stops_outside(config, b), found)
}

/// Whether a scan in quotes that looks on from `from` stops at `found`.
pub open spec fn lands_in_quotes(
    config: ParserConfig,
    input: Seq<u8>,
    from: nat,
    found: Option<nat>,
) -> bool {
    is_first(input, from, |b: u8| stops_in_quotes(config, b), found)
}

/// The outcome of scanning on from `pos` in `state`, with `fields` fields read.
pub open spec fn reading(
    config: ParserConfig,
    input: Seq<u8>,
    state: NfaState,
    pos: nat,
    fields: nat,
) -> ScanOutcome {
    config.run(input, Cursor { pos, state, fields })
}

proof fn lemma_is_first(
    input: Seq<u8>,
    from: nat,
    wanted: spec_fn(u8) -> bool,
    found: Option<nat>,
    targets: Set<u8>,
)
    requires
        is_first(input, from, wanted, found),
        forall|b: u8| #[trigger] targets.contains(b) == wanted(b),
    ensures
        first_from(input, from, targets) == found,
{
    lemma_first_from(input, from, targets);
    if let Some(i) = found {
        assert(targets.contains(input[i as int]));
        if let Some(k) = first_from(input, from, targets) {
            if k < i {
                assert(!wanted(input[k as int]));
            }
        }
    } else if let Some(k) = first_from(input, from, targets) {
        assert(!wanted(input[k as int]));
    }
}

proof fn lemma_lands_outside(config: ParserConfig, input: Seq<u8>, from: nat, found: Option<nat>)
    requires
        lands_outside(config, input, from, found),
    ensures
        first_from(input, from, config.stops(ScanAction::ScanUnquoted)) == found,
{
    lemma_is_first(
        input,
        from,
        |b: u8| stops_outside(config, b),
        found,
        config.stops(ScanAction::ScanUnquoted),
    );
}

proof fn lemma_lands_in_quotes(config: ParserConfig, input: Seq<u8>, from: nat, found: Option<nat>)
    requires
        lands_in_quotes(config, input, from, found),
    ensures
        first_from(input, from, config.stops(ScanAction::ScanQuoted)) == found,
{
    lemma_is_first(
        input,
        from,
        |b: u8| stops_in_quotes(config, b),
        found,
        config.stops(ScanAction::ScanQuoted),
    );
}

/// A scan reads its input from the start, with no field read.
pub proof fn law_scan_reads_from_the_start(config: ParserConfig, input: Seq<u8>)
    ensures
        config.scan_outcome(input) == reading(config, input, NfaState::StartRecord, 0, 0),
{
}

/// Behind the last byte there is nothing to read, in whatever state.
pub proof fn law_reading_ends_with_the_input(
    config: ParserConfig,
    input: Seq<u8>,
    state: NfaState,
    at: nat,
    fields: nat,
)
    requires
        at >= input.len(),
    ensures
        reading(config, input, state, at, fields) is Exhausted,
{
}

/// A terminator before a record is passed over, be it a blank line or the rest of the
/// line before: the scan goes on before the record, at the next byte at which it stops.
pub proof fn law_terminators_before_a_record_are_passed_over(
    config: ParserConfig,
    input: Seq<u8>,
    at: nat,
    fields: nat,
    next: Option<nat>,
)
    requires
        at < input.len(),
        is_terminator(config, input[at as int]),
        lands_outside(config, input, at + 1, next),
    ensures
        reading(config, input, NfaState::StartRecord, at, fields) == (match next {
            Some(i) => reading(config, input, NfaState::StartRecord, i, fields),
            None => ScanOutcome::Exhausted,
        }),
{
    lemma_lands_outside(config, input, at + 1, next);
    if let Some(i) = next {
        assert(config.step(input, at, NfaState::StartRecord) == Some((i, NfaState::StartRecord)));
    } else {
        assert(config.step(input, at, NfaState::StartRecord) is None);
    }
}

/// A comment before a record is passed over up to the next line feed, and with it what
/// follows that does not stop a scan.
pub proof fn law_comments_before_a_record_are_passed_over(
    config: ParserConfig,
    input: Seq<u8>,
    at: nat,
    fields: nat,
    line_feed: Option<nat>,
    next: Option<nat>,
)
    requires
        at < input.len(),
        config.comment == Some(input[at as int]),
        !is_terminator(config, input[at as int]),
        is_first(input, at + 1, |b: u8| b == LF, line_feed),
        line_feed matches Some(i) ==> lands_outside(config, input, i + 1, next),
    ensures
        reading(config, input, NfaState::StartRecord, at, fields) == (match (line_feed, next) {
            (Some(_), Some(i)) => reading(config, input, NfaState::StartRecord, i, fields),
            _ => ScanOutcome::Exhausted,
        }),
{
    lemma_is_first(
        input,
        at + 1,
        |b: u8| b == LF,
        line_feed,
        config.stops(ScanAction::ScanComment),
    );
    if let Some(l) = line_feed {
        assert(config.step(input, at, NfaState::StartRecord) == Some((l, NfaState::InComment)));
        lemma_lands_outside(config, input, l + 1, next);
        if let Some(i) = next {
            assert(config.step(input, l, NfaState::InComment) == Some((i, NfaState::StartRecord)));
        } else {
            assert(config.step(input, l, NfaState::InComment) is None);
        }
        assert(reading(config, input, NfaState::StartRecord, at, fields) == reading(
            config,
            input,
            NfaState::InComment,
            l,
            fields,
        ));
    } else {
        assert(config.step(input, at, NfaState::StartRecord) is None);
    }
}

/// Any other byte before a record is the first of its first field.
pub proof fn law_a_record_begins_with_a_field(
    config: ParserConfig,
    input: Seq<u8>,
    at: nat,
    fields: nat,
)
    requires
        at < input.len(),
        !is_terminator(config, input[at as int]),
        config.comment != Some(input[at as int]),
    ensures
        reading(config, input, NfaState::StartRecord, at, fields) == reading(
            config,
            input,
            NfaState::StartField,
            at,
            fields,
        ),
{
    assert(config.step(input, at, NfaState::StartRecord) == Some((at, NfaState::StartField)));
}

proof fn lemma_reads_to_field_end(
    config: ParserConfig,
    input: Seq<u8>,
    at: nat,
    fields: nat,
    end: Option<nat>,
)
    requires
        is_first(input, at, |b: u8| ends_a_field(config, b), end),
    ensures
        reading(config, input, NfaState::InField, at, fields) == (match end {
            Some(i) => reading(config, input, NfaState::InField, i, fields),
            None => ScanOutcome::Exhausted,
        }),
    decreases input.len() - at,
{
    if at < input.len() && end != Some(at) {
        assert(!ends_a_field(config, input[at as int]));
        let stops = config.stops(ScanAction::ScanUnquoted);
        lemma_first_from(input, at + 1, stops);
        let next = config.next_state(NfaState::InField, input[at as int]);
        assert(next == NfaState::InField);
        assert(scan_of(NfaState::InField, next) == ScanAction::ScanUnquoted);
        match first_from(input, at + 1, stops) {
            Some(i) => {
                assert(config.step(input, at, NfaState::InField) == Some((i, NfaState::InField)));
                if let Some(e) = end {
                    assert(stops.contains(input[e as int]));
                }
                lemma_reads_to_field_end(config, input, i, fields, end);
            },
            None => {
                assert(config.step(input, at, NfaState::InField) is None);
                if let Some(e) = end {
                    assert(stops.contains(input[e as int]));
                }
            },
        }
    }
}

/// A field that does not begin with a quote ends at the next delimiter or terminator,
/// whatever stands before that; so does what is left of a field.
pub proof fn law_a_bare_field_ends_at_a_delimiter_or_terminator(
    config: ParserConfig,
    input: Seq<u8>,
    state: NfaState,
    at: nat,
    fields: nat,
    end: Option<nat>,
)
    requires
        state == NfaState::InField || (state == NfaState::StartField && (at < input.len() ==> !(
        config.quoting && input[at as int] == config.quote))),
        is_first(input, at, |b: u8| ends_a_field(config, b), end),
    ensures
        reading(config, input, state, at, fields) == (match end {
            Some(i) => reading(config, input, NfaState::InField, i, fields),
            None => ScanOutcome::Exhausted,
        }),
{
    lemma_reads_to_field_end(config, input, at, fields, end);
    if state == NfaState::StartField && at < input.len() {
        assert(config.step(input, at, state) == config.step(input, at, NfaState::InField));
    }
}

/// A quote at the start of a field opens a quoted field: the scan goes on in quotes, at
/// the next byte at which it stops there.
pub proof fn law_a_quote_opens_a_quoted_field(
    config: ParserConfig,
    input: Seq<u8>,
    at: nat,
    fields: nat,
    next: Option<nat>,
)
    requires
        at < input.len(),
        config.quoting,
        input[at as int] == config.quote,
        lands_in_quotes(config, input, at + 1, next),
    ensures
        reading(config, input, NfaState::StartField, at, fields) == (match next {
            Some(i) => reading(config, input, NfaState::InQuotedField, i, fields),
            None => ScanOutcome::Exhausted,
        }),
{
    lemma_lands_in_quotes(config, input, at + 1, next);
    if let Some(i) = next {
        assert(config.step(input, at, NfaState::StartField) == Some((i, NfaState::InQuotedField)));
    } else {
        assert(config.step(input, at, NfaState::StartField) is None);
    }
}

/// A quote in quotes closes them, and the field goes on behind it without quotes, unless
/// a second quote follows at once and a quote may be doubled.
pub proof fn law_a_single_quote_closes_quotes(
    config: ParserConfig,
    input: Seq<u8>,
    at: nat,
    fields: nat,
)
    requires
        at < input.len(),
        config.quoting,
        input[at as int] == config.quote,
        at + 1 < input.len() && input[(at + 1) as int] == config.quote ==> !config.double_quote,
    ensures
        reading(config, input, NfaState::InQuotedField, at, fields) == reading(
            config,
            input,
            NfaState::InField,
            at + 1,
            fields,
        ),
{
    assert(config.step(input, at, NfaState::InQuotedField) == Some(
        (at + 1, NfaState::InDoubleEscapedQuote),
    ));
    assert(reading(config, input, NfaState::InQuotedField, at, fields) == reading(
        config,
        input,
        NfaState::InDoubleEscapedQuote,
        at + 1,
        fields,
    ));
    if at + 1 < input.len() {
        assert(config.step(input, at + 1, NfaState::InDoubleEscapedQuote) == config.step(
            input,
            at + 1,
            NfaState::InField,
        ));
    }
}

/// A doubled quote in quotes is content: the scan goes on in quotes behind it.
pub proof fn law_a_doubled_quote_is_passed_over(
    config: ParserConfig,
    input: Seq<u8>,
    at: nat,
    fields: nat,
    next: Option<nat>,
)
    requires
        at + 1 < input.len(),
        config.quoting,
        config.double_quote,
        input[at as int] == config.quote,
        input[(at + 1) as int] == config.quote,
        lands_in_quotes(config, input, at + 2, next),
    ensures
        reading(config, input, NfaState::InQuotedField, at, fields) == (match next {
            Some(i) => reading(config, input, NfaState::InQuotedField, i, fields),
            None => ScanOutcome::Exhausted,
        }),
{
    lemma_lands_in_quotes(config, input, at + 2, next);
    assert(config.step(input, at, NfaState::InQuotedField) == Some(
        (at + 1, NfaState::InDoubleEscapedQuote),
    ));
    assert(reading(config, input, NfaState::InQuotedField, at, fields) == reading(
        config,
        input,
        NfaState::InDoubleEscapedQuote,
        at + 1,
        fields,
    ));
    if let Some(i) = next {
        assert(config.step(input, at + 1, NfaState::InDoubleEscapedQuote) == Some(
            (i, NfaState::InQuotedField),
        ));
    } else {
        assert(config.step(input, at + 1, NfaState::InDoubleEscapedQuote) is None);
    }
}

/// An escape in quotes makes content of the byte at which the scan stops next: the scan
/// goes on in quotes behind that one. An escape that is the quote is left out, which is
/// read as a quote.
pub proof fn law_an_escaped_byte_is_passed_over(
    config: ParserConfig,
    input: Seq<u8>,
    at: nat,
    fields: nat,
    escaped: Option<nat>,
    next: Option<nat>,
)
    requires
        at < input.len(),
        config.quoting,
        config.escape == Some(input[at as int]),
        input[at as int] != config.quote,
        lands_in_quotes(config, input, at + 1, escaped),
        escaped matches Some(i) ==> lands_in_quotes(config, input, i + 1, next),
    ensures
        reading(config, input, NfaState::InQuotedField, at, fields) == (match (escaped, next) {
            (Some(_), Some(i)) => reading(config, input, NfaState::InQuotedField, i, fields),
            _ => ScanOutcome::Exhausted,
        }),
{
    lemma_lands_in_quotes(config, input, at + 1, escaped);
    if let Some(e) = escaped {
        lemma_lands_in_quotes(config, input, e + 1, next);
        assert(config.step(input, at, NfaState::InQuotedField) == Some(
            (e, NfaState::InEscapedQuote),
        ));
        assert(reading(config, input, NfaState::InQuotedField, at, fields) == reading(
            config,
            input,
            NfaState::InEscapedQuote,
            e,
            fields,
        ));
        if let Some(i) = next {
            assert(config.step(input, e, NfaState::InEscapedQuote) == Some(
                (i, NfaState::InQuotedField),
            ));
        } else {
            assert(config.step(input, e, NfaState::InEscapedQuote) is None);
        }
    } else {
        assert(config.step(input, at, NfaState::InQuotedField) is None);
    }
}

/// Any other byte in quotes is content, delimiters and terminators too: the scan goes on
/// in quotes behind it.
pub proof fn law_other_bytes_in_quotes_are_passed_over(
    config: ParserConfig,
    input: Seq<u8>,
    at: nat,
    fields: nat,
    next: Option<nat>,
)
    requires
        at < input.len(),
        !(config.quoting && input[at as int] == config.quote),
        !(config.quoting && config.escape == Some(input[at as int])),
        lands_in_quotes(config, input, at + 1, next),
    ensures
        reading(config, input, NfaState::InQuotedField, at, fields) == (match next {
            Some(i) => reading(config, input, NfaState::InQuotedField, i, fields),
            None => ScanOutcome::Exhausted,
        }),
{
    lemma_lands_in_quotes(config, input, at + 1, next);
    if let Some(i) = next {
        assert(config.step(input, at, NfaState::InQuotedField) == Some(
            (i, NfaState::InQuotedField),
        ));
    } else {
        assert(config.step(input, at, NfaState::InQuotedField) is None);
    }
}

/// A delimiter ends a field. The next one begins where the scan stops behind it, unless
/// there are too many fields by then: the record is rejected there.
pub proof fn law_a_delimiter_ends_a_field(
    config: ParserConfig,
    input: Seq<u8>,
    at: nat,
    fields: nat,
    next: Option<nat>,
)
    requires
        at < input.len(),
        input[at as int] == config.delimiter,
        lands_outside(config, input, at + 1, next),
    ensures
        reading(config, input, NfaState::InField, at, fields) == (match next {
            Some(i) => if fields + 1 > config.num_fields {
                ScanOutcome::Rejected(i)
            } else {
                reading(config, input, NfaState::StartField, i, fields + 1)
            },
            None => ScanOutcome::Exhausted,
        }),
{
    lemma_lands_outside(config, input, at + 1, next);
    if let Some(i) = next {
        assert(config.step(input, at, NfaState::InField) == Some((i, NfaState::EndFieldDelim)));
        assert(config.step(input, i, NfaState::EndFieldDelim) == Some((i, NfaState::StartField)));
        if fields + 1 <= config.num_fields {
            assert(reading(config, input, NfaState::EndFieldDelim, i, fields + 1) == reading(
                config,
                input,
                NfaState::StartField,
                i,
                fields + 1,
            ));
        }
    } else {
        assert(config.step(input, at, NfaState::InField) is None);
    }
}

/// A terminator ends a field and the record. The scan is over at the terminator, or behind
/// it where it is a `\r` that a `\n` may follow; the record is accepted where it has the
/// right number of fields, and rejected where it has not. A terminator that is the
/// delimiter is left out, which is read as a delimiter.
pub proof fn law_a_terminator_ends_the_record(
    config: ParserConfig,
    input: Seq<u8>,
    at: nat,
    fields: nat,
)
    requires
        at < input.len(),
        is_terminator(config, input[at as int]),
        input[at as int] != config.delimiter,
    ensures
        ({
            let end = if config.term == Terminator::CRLF && input[at as int] == CR {
                at + 1
            } else {
                at
            };
            reading(config, input, NfaState::InField, at, fields) == if fields + 1
                == config.num_fields {
                ScanOutcome::Accepted(end)
            } else {
                ScanOutcome::Rejected(end)
            }
        }),
{
    let c = input[at as int];
    let end = if config.term == Terminator::CRLF && c == CR {
        at + 1
    } else {
        at
    };
    let last = if config.term == Terminator::CRLF && c == CR {
        NfaState::CRLF
    } else {
        NfaState::EndRecord
    };
    assert(config.step(input, at, NfaState::InRecordTerm) == Some((end, last)));
    assert(config.step(input, at, NfaState::EndFieldTerm) == Some((at, NfaState::InRecordTerm)));
    assert(config.step(input, at, NfaState::InField) == Some((at, NfaState::EndFieldTerm)));
    assert(reading(config, input, NfaState::EndFieldTerm, at, fields) == reading(
        config,
        input,
        NfaState::InRecordTerm,
        at,
        fields,
    ));
}

} // verus!
