//! Records as CSV writes them: which of them a scan accepts, and that the search
//! for a record end finds its way among them.

use vstd::prelude::*;

use crate::byte_search::first_from;
use crate::byte_search::lemma_first_from;
use crate::byte_search::lemma_first_from_is;
use crate::finite_automata::Cursor;
use crate::finite_automata::NfaState;
use crate::finite_automata::ParserConfig;
use crate::finite_automata::ScanAction;
use crate::finite_automata::ScanOutcome;
use crate::finite_automata::SearchOutcome;
use crate::finite_automata::Terminator;
use crate::finite_automata::CR;
use crate::finite_automata::LF;

verus! {

/// Whether the delimiter, the quote and the terminators of a configuration are
/// different bytes.
pub open spec fn is_unambiguous(config: ParserConfig) -> bool {
    &&& !config.term.terminates(config.delimiter)
    &&& !config.is_quote(config.delimiter)
    &&& !(config.quoting && config.term.terminates(config.quote))
}

/// Whether the bytes of `s`, at `from` or later and before `to`, are the content of a
/// quoted field: each quote is doubled or escaped, and nothing else is escaped but the
/// escape.
pub open spec fn is_quoted_content(config: ParserConfig, s: Seq<u8>, from: int, to: int) -> bool
    decreases to - from,
{
    if from >= to {
        from == to
    } else if config.is_quote(s[from]) {
        &&& config.double_quote
        &&& from + 1 < to
        &&& config.is_quote(s[from + 1])
        &&& is_quoted_content(config, s, from + 2, to)
    } else if config.is_escape(s[from]) {
        &&& from + 1 < to
        &&& config.is_quote(s[from + 1]) || config.is_escape(s[from + 1])
        &&& is_quoted_content(config, s, from + 2, to)
    } else {
        is_quoted_content(config, s, from + 1, to)
    }
}

/// Whether `c` can stand in a field that is written without quotes.
pub open spec fn is_bare_byte(config: ParserConfig, c: u8) -> bool {
    c != config.delimiter && !config.term.terminates(c) && !config.is_quote(c)
}

/// A field that is written without quotes: it holds no quote, no delimiter and no
/// terminator.
pub open spec fn is_bare(config: ParserConfig, field: Seq<u8>) -> bool {
    forall|i: int| 0 <= i < field.len() ==> is_bare_byte(config, #[trigger] field[i])
}

/// A field that is written in quotes: in it delimiters and terminators are content.
pub open spec fn is_quoted(config: ParserConfig, field: Seq<u8>) -> bool {
    &&& field.len() >= 2
    &&& config.is_quote(field[0])
    &&& config.is_quote(field.last())
    &&& is_quoted_content(config, field, 1, field.len() - 1)
}

/// The fields of a record: there is one at least, and each is bare or quoted.
pub open spec fn is_record(config: ParserConfig, fields: Seq<Seq<u8>>) -> bool {
    &&& fields.len() > 0
    &&& forall|i: int|
        0 <= i < fields.len() ==> is_bare(config, #[trigger] fields[i]) || is_quoted(
            config,
            fields[i],
        )
}

/// The fields of a record, with a delimiter between each and the next.
pub open spec fn written(config: ParserConfig, fields: Seq<Seq<u8>>) -> Seq<u8>
    decreases fields.len(),
{
    if fields.len() <= 1 {
        fields[0]
    } else {
        fields[0] + seq![config.delimiter] + written(config, fields.drop_first())
    }
}

/// Where the scan of a record ends whose terminator `t` stands at `at`: there, or
/// behind it where it is a `\r` that a `\n` may follow.
pub open spec fn end_at(config: ParserConfig, at: nat, t: u8) -> nat {
    if config.term == Terminator::CRLF && t == CR {
        at + 1
    } else {
        at
    }
}

/// The outcome of scanning a record of `count` fields that ends at `end`; one that
/// has too many fields is rejected there or before.
pub open spec fn counted(config: ParserConfig, r: ScanOutcome, count: nat, end: nat) -> bool {
    if count == config.num_fields {
        r == ScanOutcome::Accepted(end)
    } else if count < config.num_fields {
        r == ScanOutcome::Rejected(end)
    } else {
        r matches ScanOutcome::Rejected(n) && n <= end
    }
}

/// The bytes at which a scan outside of quotes stops.
pub open spec fn field_stops(config: ParserConfig) -> Set<u8> {
    config.stops(ScanAction::ScanUnquoted)
}

proof fn lemma_content_skip(config: ParserConfig, s: Seq<u8>, from: int, mid: int, to: int)
    requires
        from <= mid <= to,
        is_quoted_content(config, s, from, to),
        forall|i: int| from <= i < mid ==> !config.is_quote(s[i]) && !config.is_escape(s[i]),
    ensures
        is_quoted_content(config, s, mid, to),
    decreases mid - from,
{
    if from < mid {
        lemma_content_skip(config, s, from + 1, mid, to);
    }
}

proof fn lemma_content_shift(
    config: ParserConfig,
    s: Seq<u8>,
    t: Seq<u8>,
    by: int,
    from: int,
    to: int,
)
    requires
        is_quoted_content(config, s, from, to),
        forall|i: int| from <= i < to ==> #[trigger] s[i] == t[i + by],
    ensures
        is_quoted_content(config, t, from + by, to + by),
    decreases to - from,
{
    if from < to {
        assert(s[from] == t[from + by]);
        if config.is_quote(s[from]) || config.is_escape(s[from]) {
            assert(s[from + 1] == t[from + 1 + by]);
            lemma_content_shift(config, s, t, by, from + 2, to);
        } else {
            lemma_content_shift(config, s, t, by, from + 1, to);
        }
    }
}

/// The run in a quoted field reaches the byte behind the quote that closes it.
proof fn lemma_run_quoted(
    config: ParserConfig,
    input: Seq<u8>,
    from: nat,
    close: nat,
    fields: nat,
)
    requires
        from <= close < input.len(),
        config.is_quote(input[close as int]),
        is_quoted_content(config, input, from as int, close as int),
    ensures
        ({
            let at = first_from(input, from, config.stops(ScanAction::ScanQuoted));
            &&& at is Some
            &&& config.run(input, Cursor { pos: at->0, state: NfaState::InQuotedField, fields })
                == config.run(
                input,
                Cursor { pos: close + 1, state: NfaState::InDoubleEscapedQuote, fields },
            )
        }),
    decreases close - from,
{
    let stops = config.stops(ScanAction::ScanQuoted);
    lemma_first_from(input, from, stops);
    assert(stops.contains(input[close as int]));
    let at = first_from(input, from, stops)->0;
    assert forall|i: int| from <= i < at implies !config.is_quote(input[i])
        && !config.is_escape(input[i]) by {
        assert(!stops.contains(input[i]));
    }
    lemma_content_skip(config, input, from as int, at as int, close as int);
    if config.is_quote(input[at as int]) {
        let behind = Cursor { pos: at + 1, state: NfaState::InDoubleEscapedQuote, fields };
        assert(config.step(input, at, NfaState::InQuotedField) == Some(
            (at + 1, NfaState::InDoubleEscapedQuote),
        ));
        if at < close {
            lemma_run_quoted(config, input, at + 2, close, fields);
            let next = first_from(input, at + 2, stops)->0;
            assert(config.step(input, at + 1, NfaState::InDoubleEscapedQuote) == Some(
                (next, NfaState::InQuotedField),
            ));
            assert(config.run(input, behind) == config.run(
                input,
                Cursor { pos: next, state: NfaState::InQuotedField, fields },
            ));
        }
    } else if config.is_escape(input[at as int]) {
        let behind = Cursor { pos: at + 1, state: NfaState::InEscapedQuote, fields };
        lemma_first_from_is(input, at + 1, stops, at + 1);
        assert(config.step(input, at, NfaState::InQuotedField) == Some(
            (at + 1, NfaState::InEscapedQuote),
        ));
        lemma_run_quoted(config, input, at + 2, close, fields);
        let next = first_from(input, at + 2, stops)->0;
        assert(config.step(input, at + 1, NfaState::InEscapedQuote) == Some(
            (next, NfaState::InQuotedField),
        ));
        assert(config.run(input, behind) == config.run(
            input,
            Cursor { pos: next, state: NfaState::InQuotedField, fields },
        ));
    } else {
        lemma_run_quoted(config, input, at + 1, close, fields);
        let next = first_from(input, at + 1, stops)->0;
        assert(config.step(input, at, NfaState::InQuotedField) == Some(
            (next, NfaState::InQuotedField),
        ));
    }
}

/// At a byte that is no quote, the start of a field and the place behind its closing
/// quote are like a place in a field.
proof fn lemma_run_as_in_field(
    config: ParserConfig,
    input: Seq<u8>,
    at: nat,
    state: NfaState,
    fields: nat,
)
    requires
        at < input.len(),
        !config.is_quote(input[at as int]),
        state == NfaState::StartField || state == NfaState::InDoubleEscapedQuote,
    ensures
        config.run(input, Cursor { pos: at, state, fields }) == config.run(
            input,
            Cursor { pos: at, state: NfaState::InField, fields },
        ),
{
    assert(config.step(input, at, state) == config.step(input, at, NfaState::InField));
}

/// The run in a bare field reaches its end.
proof fn lemma_run_bare(config: ParserConfig, input: Seq<u8>, at: nat, to: nat, fields: nat)
    requires
        at <= to < input.len(),
        forall|i: int| at <= i < to ==> is_bare_byte(config, #[trigger] input[i]),
        field_stops(config).contains(input[to as int]),
    ensures
        config.run(input, Cursor { pos: at, state: NfaState::InField, fields }) == config.run(
            input,
            Cursor { pos: to, state: NfaState::InField, fields },
        ),
    decreases to - at,
{
    if at < to {
        lemma_first_from(input, at + 1, field_stops(config));
        let next = first_from(input, at + 1, field_stops(config))->0;
        assert(config.step(input, at, NfaState::InField) == Some((next, NfaState::InField)));
        lemma_run_bare(config, input, next, to, fields);
    }
}

/// The run over the delimiter behind a field.
proof fn lemma_run_delimiter(
    config: ParserConfig,
    input: Seq<u8>,
    at: nat,
    next: nat,
    fields: nat,
)
    requires
        at < input.len(),
        input[at as int] == config.delimiter,
        first_from(input, at + 1, field_stops(config)) == Some(next),
    ensures
        config.run(input, Cursor { pos: at, state: NfaState::InField, fields }) == if fields + 1
            > config.num_fields {
            ScanOutcome::Rejected(next)
        } else {
            config.run(
                input,
                Cursor { pos: next, state: NfaState::StartField, fields: fields + 1 },
            )
        },
{
    lemma_first_from(input, at + 1, field_stops(config));
    assert(config.step(input, at, NfaState::InField) == Some((next, NfaState::EndFieldDelim)));
    assert(config.step(input, next, NfaState::EndFieldDelim) == Some((next, NfaState::StartField)));
    assert(config.run(
        input,
        Cursor { pos: next, state: NfaState::EndFieldDelim, fields: fields + 1 },
    ) == config.run(input, Cursor { pos: next, state: NfaState::StartField, fields: fields + 1 }));
}

/// The run over the terminator behind the last field.
proof fn lemma_run_terminator(config: ParserConfig, input: Seq<u8>, at: nat, fields: nat)
    requires
        is_unambiguous(config),
        at < input.len(),
        config.term.terminates(input[at as int]),
        fields <= config.num_fields,
    ensures
        counted(
            config,
            config.run(input, Cursor { pos: at, state: NfaState::InField, fields }),
            fields + 1,
            end_at(config, at, input[at as int]),
        ),
{
    let c = input[at as int];
    let in_term = Cursor { pos: at, state: NfaState::InRecordTerm, fields };
    let end_field = Cursor { pos: at, state: NfaState::EndFieldTerm, fields };
    let last = if config.term == Terminator::CRLF && c == CR {
        NfaState::CRLF
    } else {
        NfaState::EndRecord
    };
    assert(config.step(input, at, NfaState::InRecordTerm) == Some((end_at(config, at, c), last)));
    assert(config.step(input, at, NfaState::EndFieldTerm) == Some((at, NfaState::InRecordTerm)));
    assert(config.step(input, at, NfaState::InField) == Some((at, NfaState::EndFieldTerm)));
    assert(config.run(input, end_field) == config.run(input, in_term));
}

/// Whether a bare or a quoted field stands in `input`, from `from` to `to`.
spec fn field_at(config: ParserConfig, input: Seq<u8>, from: nat, to: nat) -> bool {
    ||| from <= to <= input.len() && forall|i: int|
        from <= i < to ==> is_bare_byte(config, #[trigger] input[i])
    ||| from + 2 <= to <= input.len() && config.is_quote(input[from as int]) && config.is_quote(
        input[to - 1],
    ) && is_quoted_content(config, input, (from + 1) as int, to - 1)
}

/// The run over a field, from its start or from where a scan lands behind the byte
/// before it.
proof fn lemma_run_field(
    config: ParserConfig,
    input: Seq<u8>,
    from: nat,
    at: nat,
    to: nat,
    fields: nat,
)
    requires
        is_unambiguous(config),
        field_at(config, input, from, to),
        to < input.len(),
        input[to as int] == config.delimiter || config.term.terminates(input[to as int]),
        at == from || first_from(input, from, field_stops(config)) == Some(at),
    ensures
        from <= at <= to,
        at < to ==> !config.term.terminates(input[at as int]),
        config.run(input, Cursor { pos: at, state: NfaState::StartField, fields }) == config.run(
            input,
            Cursor { pos: to, state: NfaState::InField, fields },
        ),
{
    let stops = field_stops(config);
    lemma_first_from(input, from, stops);
    assert(stops.contains(input[to as int]));
    if from < to && config.is_quote(input[from as int]) {
        assert(stops.contains(input[from as int]));
        assert(at == from);
        lemma_run_quoted(config, input, from + 1, (to - 1) as nat, fields);
        let inside = first_from(input, from + 1, config.stops(ScanAction::ScanQuoted))->0;
        assert(config.step(input, from, NfaState::StartField) == Some(
            (inside, NfaState::InQuotedField),
        ));
        lemma_run_as_in_field(config, input, to, NfaState::InDoubleEscapedQuote, fields);
    } else {
        if at < to {
            assert(is_bare_byte(config, input[at as int]));
        }
        lemma_run_as_in_field(config, input, at, NfaState::StartField, fields);
        lemma_run_bare(config, input, at, to, fields);
    }
}

proof fn lemma_field_at(config: ParserConfig, field: Seq<u8>, input: Seq<u8>, from: nat)
    requires
        is_bare(config, field) || is_quoted(config, field),
        from + field.len() <= input.len(),
        forall|i: int| 0 <= i < field.len() ==> #[trigger] field[i] == input[i + from],
    ensures
        field_at(config, input, from, from + field.len()),
{
    let to = from + field.len();
    if is_quoted(config, field) {
        assert(field[0] == input[0int + from]);
        assert(field[field.len() - 1] == input[field.len() - 1 + from]);
        lemma_content_shift(config, field, input, from as int, 1, field.len() - 1);
    } else {
        assert forall|i: int| from <= i < to implies is_bare_byte(config, #[trigger] input[i]) by {
            assert(field[i - from] == input[i - from + from]);
        }
    }
}

/// The run over the fields of a record that stands behind `before`, from its start or
/// from where a scan lands behind the byte before it.
proof fn lemma_run_fields(
    config: ParserConfig,
    before: Seq<u8>,
    fields: Seq<Seq<u8>>,
    t: u8,
    rest: Seq<u8>,
    at: nat,
    done: nat,
)
    requires
        is_unambiguous(config),
        is_record(config, fields),
        config.term.terminates(t),
        done <= config.num_fields,
        at == before.len() || first_from(
            before + written(config, fields) + seq![t] + rest,
            before.len(),
            field_stops(config),
        ) == Some(at),
    ensures
        ({
            let input = before + written(config, fields) + seq![t] + rest;
            let len = before.len() + written(config, fields).len();
            &&& before.len() <= at <= len
            &&& at < len ==> !config.term.terminates(input[at as int])
            &&& counted(
                config,
                config.run(
                    input,
                    Cursor { pos: at, state: NfaState::StartField, fields: done },
                ),
                done + fields.len(),
                end_at(config, len, t),
            )
        }),
    decreases fields.len(),
{
    let input = before + written(config, fields) + seq![t] + rest;
    let len = before.len() + written(config, fields).len();
    let from = before.len();
    let field = fields[0];
    let to = from + field.len();
    assert forall|i: int| 0 <= i < field.len() implies #[trigger] field[i] == input[i + from] by {}
    lemma_field_at(config, field, input, from);
    assert(input[len as int] == t);
    if fields.len() == 1 {
        lemma_run_field(config, input, from, at, to, done);
        lemma_run_terminator(config, input, to, done);
    } else {
        let others = fields.drop_first();
        let next_before = before + field + seq![config.delimiter];
        assert(input =~= next_before + written(config, others) + seq![t] + rest);
        assert forall|i: int| 0 <= i < others.len() implies is_bare(config, #[trigger] others[i])
            || is_quoted(config, others[i]) by {
            assert(others[i] == fields[i + 1]);
        }
        assert(input[to as int] == config.delimiter);
        lemma_run_field(config, input, from, at, to, done);
        let stops = field_stops(config);
        lemma_first_from(input, to + 1, stops);
        assert(stops.contains(input[len as int]));
        let next = first_from(input, to + 1, stops)->0;
        lemma_run_delimiter(config, input, to, next, done);
        if done < config.num_fields {
            lemma_run_fields(config, next_before, others, t, rest, next, done + 1);
        }
    }
}

/// A written record at the start of the input is accepted where it has the right
/// number of fields, and the scan ends at its terminator, or behind a `\r`. With fewer
/// fields the record is rejected there, with more it is rejected too. Left out are the
/// empty record, which is passed over, and a record that begins like a comment.
pub proof fn law_written_record_is_counted(
    config: ParserConfig,
    fields: Seq<Seq<u8>>,
    t: u8,
    rest: Seq<u8>,
)
    requires
        is_unambiguous(config),
        is_record(config, fields),
        config.term.terminates(t),
        written(config, fields).len() > 0,
        config.comment != Some(written(config, fields)[0]),
    ensures
        counted(
            config,
            config.scan_outcome(written(config, fields) + seq![t] + rest),
            fields.len(),
            end_at(config, written(config, fields).len(), t),
        ),
{
    let input = written(config, fields) + seq![t] + rest;
    assert(seq![] + written(config, fields) + seq![t] + rest =~= input);
    lemma_run_fields(config, seq![], fields, t, rest, 0, 0);
    assert(config.step(input, 0, NfaState::StartRecord) == Some((0nat, NfaState::StartField)));
    assert(config.run(input, Cursor::start()) == config.run(
        input,
        Cursor { pos: 0, state: NfaState::StartField, fields: 0 },
    ));
}

/// Where `\r` and `\n` terminate records, each of `\n`, `\r` and `\r\n` is the single
/// terminator of a written record: whichever stands behind it, the record is counted
/// alike. Left out is what `law_written_record_is_counted` leaves out.
pub proof fn law_cr_lf_and_crlf_end_a_record(
    config: ParserConfig,
    fields: Seq<Seq<u8>>,
    rest: Seq<u8>,
)
    requires
        config.term == Terminator::CRLF,
        is_unambiguous(config),
        is_record(config, fields),
        written(config, fields).len() > 0,
        config.comment != Some(written(config, fields)[0]),
    ensures
        ({
            let record = written(config, fields);
            let lf = config.scan_outcome(record + seq![LF] + rest);
            let cr = config.scan_outcome(record + seq![CR] + rest);
            let crlf = config.scan_outcome(record + seq![CR, LF] + rest);
            &&& counted(config, lf, fields.len(), record.len())
            &&& counted(config, cr, fields.len(), record.len() + 1)
            &&& counted(config, crlf, fields.len(), record.len() + 1)
        }),
{
    let record = written(config, fields);
    law_written_record_is_counted(config, fields, LF, rest);
    law_written_record_is_counted(config, fields, CR, rest);
    law_written_record_is_counted(config, fields, CR, seq![LF] + rest);
    assert(record + seq![CR] + (seq![LF] + rest) =~= record + seq![CR, LF] + rest);
}

/// Whether a scan that starts at the terminator before a record sees it: it stops at
/// some byte of the record, and not at one that starts a comment.
pub open spec fn is_seen(config: ParserConfig, fields: Seq<Seq<u8>>) -> bool {
    first_from(written(config, fields), 0, field_stops(config)) matches Some(i) && config.comment
        != Some(written(config, fields)[i as int])
}

/// A written record between two terminators is counted in the same way by a scan that
/// starts at the first of them. A record that the scan does not see is left out: of one
/// bare field, for example, in which it does not stop.
pub proof fn law_written_record_behind_a_terminator(
    config: ParserConfig,
    s: u8,
    fields: Seq<Seq<u8>>,
    t: u8,
    rest: Seq<u8>,
)
    requires
        is_unambiguous(config),
        is_record(config, fields),
        config.term.terminates(s),
        config.term.terminates(t),
        is_seen(config, fields),
    ensures
        counted(
            config,
            config.scan_outcome(seq![s] + written(config, fields) + seq![t] + rest),
            fields.len(),
            end_at(config, 1 + written(config, fields).len(), t),
        ),
{
    let record = written(config, fields);
    let input = seq![s] + record + seq![t] + rest;
    let stops = field_stops(config);
    lemma_first_from(record, 0, stops);
    let i = first_from(record, 0, stops)->0;
    let at = i + 1;
    assert(input[at as int] == record[i as int]);
    assert forall|j: int| 1 <= j < at implies !stops.contains(input[j]) by {
        assert(input[j] == record[j - 1]);
    }
    lemma_first_from_is(input, 1, stops, at);
    lemma_run_fields(config, seq![s], fields, t, rest, at, 0);
    assert(config.step(input, 0, NfaState::StartRecord) == Some((at, NfaState::StartRecord)));
    assert(config.step(input, at, NfaState::StartRecord) == Some((at, NfaState::StartField)));
    assert(config.run(input, Cursor { pos: at, state: NfaState::StartRecord, fields: 0 })
        == config.run(input, Cursor { pos: at, state: NfaState::StartField, fields: 0 }));
}

/// Blank lines before a record are passed over: a written record behind any number of
/// terminators is counted in the same way by a scan that starts at the first of them. A
/// record that the scan does not see from the last of them is left out.
pub proof fn law_blank_lines_are_passed_over(
    config: ParserConfig,
    blank: Seq<u8>,
    fields: Seq<Seq<u8>>,
    t: u8,
    rest: Seq<u8>,
)
    requires
        is_unambiguous(config),
        is_record(config, fields),
        blank.len() > 0,
        forall|i: int| 0 <= i < blank.len() ==> config.term.terminates(#[trigger] blank[i]),
        config.term.terminates(t),
        is_seen(config, fields),
    ensures
        counted(
            config,
            config.scan_outcome(blank + written(config, fields) + seq![t] + rest),
            fields.len(),
            end_at(config, blank.len() + written(config, fields).len(), t),
        ),
{
    let record = written(config, fields);
    let input = blank + record + seq![t] + rest;
    let stops = field_stops(config);
    lemma_first_from(record, 0, stops);
    let i = first_from(record, 0, stops)->0;
    let at = blank.len() + i;
    assert(input[at as int] == record[i as int]);
    assert forall|j: int| blank.len() <= j < at implies !stops.contains(input[j]) by {
        assert(input[j] == record[j - blank.len()]);
    }
    lemma_first_from_is(input, blank.len(), stops, at);
    lemma_run_fields(config, blank, fields, t, rest, at, 0);
    assert(config.step(input, at, NfaState::StartRecord) == Some((at, NfaState::StartField)));
    assert(config.run(input, Cursor { pos: at, state: NfaState::StartRecord, fields: 0 })
        == config.run(input, Cursor { pos: at, state: NfaState::StartField, fields: 0 }));
    lemma_run_blank(config, input, blank.len(), 0, at);
}

/// The run over terminators reaches where the scan behind the last of them lands.
proof fn lemma_run_blank(config: ParserConfig, input: Seq<u8>, to: nat, from: nat, at: nat)
    requires
        from < to <= input.len(),
        forall|i: int| from <= i < to ==> config.term.terminates(#[trigger] input[i]),
        first_from(input, to, field_stops(config)) == Some(at),
    ensures
        config.run(input, Cursor { pos: from, state: NfaState::StartRecord, fields: 0 })
            == config.run(input, Cursor { pos: at, state: NfaState::StartRecord, fields: 0 }),
    decreases to - from,
{
    assert(config.term.terminates(input[from as int]));
    if from + 1 < to {
        assert(config.term.terminates(input[(from + 1) as int]));
        lemma_first_from_is(input, from + 1, field_stops(config), from + 1);
        assert(config.step(input, from, NfaState::StartRecord) == Some(
            (from + 1, NfaState::StartRecord),
        ));
        lemma_run_blank(config, input, to, from + 1, at);
    } else {
        assert(config.step(input, from, NfaState::StartRecord) == Some(
            (at, NfaState::StartRecord),
        ));
    }
}

/// What may stand between a record and the line feed behind it: nothing, or a
/// carriage return where it belongs to the terminator.
pub open spec fn is_line_tail(config: ParserConfig, tail: Seq<u8>) -> bool {
    tail == Seq::<u8>::empty() || (config.term == Terminator::CRLF && tail == seq![CR])
}

/// Whether `line` is a written record of `count` fields, with or without a carriage
/// return behind it, and one that a scan from the line before sees.
pub open spec fn is_record_line(config: ParserConfig, line: Seq<u8>, count: nat) -> bool {
    exists|fields: Seq<Seq<u8>>, tail: Seq<u8>|
        #![trigger is_record(config, fields), is_line_tail(config, tail)]
        is_record(config, fields) && is_line_tail(config, tail) && is_seen(config, fields)
            && fields.len() == count && line == written(config, fields) + tail
}

/// A line between two line feeds that is a written record is counted.
proof fn lemma_line(config: ParserConfig, line: Seq<u8>, count: nat, after: Seq<u8>)
    requires
        is_unambiguous(config),
        config.term.terminates(LF),
        is_record_line(config, line, count),
    ensures
        counted(
            config,
            config.scan_outcome(seq![LF] + line + seq![LF] + after),
            count,
            line.len() + 1,
        ),
{
    let (fields, tail) = choose|fields: Seq<Seq<u8>>, tail: Seq<u8>|
        #![trigger is_record(config, fields), is_line_tail(config, tail)]
        is_record(config, fields) && is_line_tail(config, tail) && is_seen(config, fields)
            && fields.len() == count && line == written(config, fields) + tail;
    let record = written(config, fields);
    let input = seq![LF] + line + seq![LF] + after;
    if tail.len() == 0 {
        assert(input =~= seq![LF] + record + seq![LF] + after);
        law_written_record_behind_a_terminator(config, LF, fields, LF, after);
    } else {
        assert(input =~= seq![LF] + record + seq![CR] + (seq![LF] + after));
        law_written_record_behind_a_terminator(config, LF, fields, CR, seq![LF] + after);
    }
}

/// Lines one after the other, each behind a line feed.
pub open spec fn text_of(lines: Seq<Seq<u8>>) -> Seq<u8>
    decreases lines.len(),
{
    if lines.len() == 0 {
        seq![]
    } else {
        seq![LF] + lines[0] + text_of(lines.drop_first())
    }
}

/// A search that stands at the line feed before written records with the right number
/// of fields, whatever was rejected before, finds the end of the last of those that it
/// is required to scan, unless it has to scan one and has no try left.
pub proof fn law_search_goes_on_among_written_records(
    config: ParserConfig,
    before: Seq<u8>,
    lines: Seq<Seq<u8>>,
    rest: Seq<u8>,
    good: nat,
    tries: nat,
)
    requires
        is_unambiguous(config),
        config.term.terminates(LF),
        tries < config.find_a_record_end_max_tries || lines.len() == 0,
        good + lines.len() == config.find_a_record_end_required_good_scans,
        forall|i: int|
            0 <= i < lines.len() ==> is_record_line(
                config,
                #[trigger] lines[i],
                config.num_fields as nat,
            ),
    ensures
        config.search(before + text_of(lines) + seq![LF] + rest, before.len(), good, tries)
            == SearchOutcome::Found(before.len() + text_of(lines).len()),
    decreases lines.len(),
{
    let buffer = before + text_of(lines) + seq![LF] + rest;
    if lines.len() > 0 {
        let line = lines[0];
        let others = lines.drop_first();
        let next = text_of(others) + seq![LF] + rest;
        assert(next[0] == LF) by {
            if others.len() > 0 {
                assert(text_of(others)[0] == LF);
            }
        }
        let after = next.drop_first();
        assert(next =~= seq![LF] + after);
        assert(buffer.skip(before.len() as int) =~= seq![LF] + line + seq![LF] + after);
        lemma_line(config, line, config.num_fields as nat, after);
        let head = before + seq![LF] + line;
        assert(head + text_of(others) + seq![LF] + rest =~= buffer);
        assert forall|i: int| 0 <= i < others.len() implies is_record_line(
            config,
            #[trigger] others[i],
            config.num_fields as nat,
        ) by {
            assert(others[i] == lines[i + 1]);
        }
        law_search_goes_on_among_written_records(config, head, others, rest, good + 1, tries);
    }
}

/// Among written records with the right number of fields, the search finds a record
/// end on the first try: whatever stands before the first line feed, it is the end
/// of the last of the records that it is required to scan. A configuration that
/// requires a scan and allows no try is left out.
pub proof fn law_search_finds_written_records(
    config: ParserConfig,
    lead: Seq<u8>,
    lines: Seq<Seq<u8>>,
    rest: Seq<u8>,
)
    requires
        is_unambiguous(config),
        config.term.terminates(LF),
        config.find_a_record_end_max_tries > 0 || config.find_a_record_end_required_good_scans == 0,
        !lead.contains(LF),
        lines.len() == config.find_a_record_end_required_good_scans,
        forall|i: int|
            0 <= i < lines.len() ==> is_record_line(
                config,
                #[trigger] lines[i],
                config.num_fields as nat,
            ),
    ensures
        config.search_outcome(lead + text_of(lines) + seq![LF] + rest) == SearchOutcome::Found(
            lead.len() + text_of(lines).len(),
        ),
{
    let buffer = lead + text_of(lines) + seq![LF] + rest;
    assert(buffer[lead.len() as int] == LF) by {
        if lines.len() > 0 {
            assert(text_of(lines)[0] == LF);
        }
    }
    assert forall|i: int| 0 <= i < lead.len() implies buffer[i] != LF by {
        assert(buffer[i] == lead[i]);
    }
    lemma_first_from_is(buffer, 0, set![LF], lead.len());
    law_search_goes_on_among_written_records(config, lead, lines, rest, 0, 0);
}

/// However many scans were good or rejected before, a search that stands at the line feed
/// before a record with too few fields, and has a try left behind it, goes on at the next
/// line feed behind that record: among written records with the right number of fields it
/// finds the end of the last of those that it is required to scan from there. The good
/// scans before do not count.
pub proof fn law_search_goes_on_behind_a_short_record(
    config: ParserConfig,
    lead: Seq<u8>,
    short: Seq<u8>,
    count: nat,
    passed: Seq<u8>,
    lines: Seq<Seq<u8>>,
    rest: Seq<u8>,
    good: nat,
    tries: nat,
)
    requires
        is_unambiguous(config),
        config.term.terminates(LF),
        good < config.find_a_record_end_required_good_scans,
        tries + 1 < config.find_a_record_end_max_tries,
        is_record_line(config, short, count),
        count < config.num_fields,
        !passed.contains(LF),
        lines.len() == config.find_a_record_end_required_good_scans,
        forall|i: int|
            0 <= i < lines.len() ==> is_record_line(
                config,
                #[trigger] lines[i],
                config.num_fields as nat,
            ),
    ensures
        ({
            let before = lead + seq![LF] + short + seq![LF] + passed;
            config.search(before + text_of(lines) + seq![LF] + rest, lead.len(), good, tries)
                == SearchOutcome::Found(before.len() + text_of(lines).len())
        }),
{
    let before = lead + seq![LF] + short + seq![LF] + passed;
    let buffer = before + text_of(lines) + seq![LF] + rest;
    let after = passed + text_of(lines) + seq![LF] + rest;
    let end = lead.len() + 1 + short.len();
    assert(buffer.skip(lead.len() as int) =~= seq![LF] + short + seq![LF] + after);
    lemma_line(config, short, count, after);
    assert forall|i: int| end + 1 <= i < before.len() implies buffer[i] != LF by {
        assert(buffer[i] == passed[i - end - 1]);
    }
    assert(text_of(lines)[0] == LF);
    assert(buffer[before.len() as int] == LF);
    lemma_first_from_is(buffer, end + 1, set![LF], before.len());
    law_search_goes_on_among_written_records(config, before, lines, rest, 0, tries + 1);
}

/// A record with too few fields costs the search one try: it goes on at the next line
/// feed behind that record, and among written records with the right number of fields
/// it finds the record end from there. A configuration that requires no scan, which
/// looks at no record, and one that allows no second try are left out.
pub proof fn law_search_recovers_from_a_short_record(
    config: ParserConfig,
    lead: Seq<u8>,
    short: Seq<u8>,
    count: nat,
    passed: Seq<u8>,
    lines: Seq<Seq<u8>>,
    rest: Seq<u8>,
)
    requires
        is_unambiguous(config),
        config.term.terminates(LF),
        config.find_a_record_end_max_tries > 1,
        !lead.contains(LF),
        is_record_line(config, short, count),
        count < config.num_fields,
        !passed.contains(LF),
        lines.len() == config.find_a_record_end_required_good_scans,
        lines.len() > 0,
        forall|i: int|
            0 <= i < lines.len() ==> is_record_line(
                config,
                #[trigger] lines[i],
                config.num_fields as nat,
            ),
    ensures
        ({
            let before = lead + seq![LF] + short + seq![LF] + passed;
            config.search_outcome(before + text_of(lines) + seq![LF] + rest)
                == SearchOutcome::Found(before.len() + text_of(lines).len())
        }),
{
    let buffer = lead + seq![LF] + short + seq![LF] + passed + text_of(lines) + seq![LF] + rest;
    assert forall|i: int| 0 <= i < lead.len() implies buffer[i] != LF by {
        assert(buffer[i] == lead[i]);
    }
    assert(buffer[lead.len() as int] == LF);
    lemma_first_from_is(buffer, 0, set![LF], lead.len());
    law_search_goes_on_behind_a_short_record(
        config,
        lead,
        short,
        count,
        passed,
        lines,
        rest,
        0,
        0,
    );
}

proof fn lemma_text_of_last(lines: Seq<Seq<u8>>)
    requires
        lines.len() > 0,
    ensures
        text_of(lines) == text_of(lines.drop_last()) + seq![LF] + lines.last(),
    decreases lines.len(),
{
    let others = lines.drop_first();
    if lines.len() == 1 {
        assert(text_of(others) =~= seq![]);
        assert(text_of(lines.drop_last()) =~= seq![]);
        assert(text_of(lines) =~= seq![LF] + lines.last());
    } else {
        lemma_text_of_last(others);
        assert(others.drop_last() =~= lines.drop_last().drop_first());
        assert(text_of(lines.drop_last()) == seq![LF] + lines[0] + text_of(others.drop_last()));
        assert(text_of(lines) =~= text_of(lines.drop_last()) + seq![LF] + lines.last());
    }
}

/// However many scans were good or rejected before, a search that stands at the line feed
/// before a record with too many fields, and has a try left behind it, goes on as behind a
/// record with too few fields where it rejects the record at the line feed that ends its
/// line. Where it rejects it before, it goes on with the next line, and needs one line
/// less. A record that holds a line feed is left out, behind which the search may go on
/// within it.
pub proof fn law_search_goes_on_behind_a_long_record(
    config: ParserConfig,
    lead: Seq<u8>,
    long: Seq<u8>,
    count: nat,
    passed: Seq<u8>,
    lines: Seq<Seq<u8>>,
    rest: Seq<u8>,
    good: nat,
    tries: nat,
)
    requires
        is_unambiguous(config),
        config.term.terminates(LF),
        good < config.find_a_record_end_required_good_scans,
        tries + 1 < config.find_a_record_end_max_tries,
        is_record_line(config, long, count),
        count > config.num_fields,
        !long.contains(LF),
        is_record_line(config, passed, config.num_fields as nat),
        !passed.contains(LF),
        lines.len() == config.find_a_record_end_required_good_scans,
        forall|i: int|
            0 <= i < lines.len() ==> is_record_line(
                config,
                #[trigger] lines[i],
                config.num_fields as nat,
            ),
    ensures
        ({
            let before = lead + seq![LF] + long + seq![LF] + passed;
            let buffer = before + text_of(lines) + seq![LF] + rest;
            let at_line_end = config.scan_outcome(buffer.skip(lead.len() as int))
                == ScanOutcome::Rejected(long.len() + 1);
            let scanned = if at_line_end {
                lines
            } else {
                lines.drop_last()
            };
            config.search(buffer, lead.len(), good, tries) == SearchOutcome::Found(
                before.len() + text_of(scanned).len(),
            )
        }),
{
    let head = lead + seq![LF] + long;
    let before = head + seq![LF] + passed;
    let buffer = before + text_of(lines) + seq![LF] + rest;
    let after = passed + text_of(lines) + seq![LF] + rest;
    assert(buffer.skip(lead.len() as int) =~= seq![LF] + long + seq![LF] + after);
    lemma_line(config, long, count, after);
    let n = config.scan_outcome(buffer.skip(lead.len() as int))->Rejected_0;
    assert(buffer[head.len() as int] == LF);
    if n == long.len() + 1 {
        assert forall|i: int| head.len() + 1 <= i < before.len() implies buffer[i] != LF by {
            assert(buffer[i] == passed[i - head.len() - 1]);
        }
        assert(text_of(lines)[0] == LF);
        assert(buffer[before.len() as int] == LF);
        lemma_first_from_is(buffer, head.len() + 1, set![LF], before.len());
        law_search_goes_on_among_written_records(config, before, lines, rest, 0, tries + 1);
    } else {
        assert forall|i: int| lead.len() + n + 1 <= i < head.len() implies buffer[i] != LF by {
            assert(buffer[i] == long[i - lead.len() - 1]);
        }
        lemma_first_from_is(buffer, lead.len() + n + 1, set![LF], head.len());
        lemma_text_of_last(lines);
        let first = seq![passed] + lines.drop_last();
        assert(first.drop_first() =~= lines.drop_last());
        assert(text_of(first) =~= seq![LF] + passed + text_of(lines.drop_last()));
        assert forall|i: int| 0 <= i < first.len() implies is_record_line(
            config,
            #[trigger] first[i],
            config.num_fields as nat,
        ) by {
            if i > 0 {
                assert(first[i] == lines[i - 1]);
            }
        }
        let others = lines.last() + seq![LF] + rest;
        assert(head + text_of(first) + seq![LF] + others =~= buffer);
        law_search_goes_on_among_written_records(config, head, first, others, 0, tries + 1);
    }
}

/// A record with too many fields costs the search one try too. Where it is rejected at
/// the line feed that ends its line, the search passes over the next line, as it does
/// behind a record with too few fields. Where it is rejected before, the search goes on
/// with the next line, and needs one line less. A record that holds a line feed is left
/// out, behind which the search may go on within it; so are a configuration that
/// requires no scan, which looks at no record, and one that allows no second try.
pub proof fn law_search_recovers_from_a_long_record(
    config: ParserConfig,
    lead: Seq<u8>,
    long: Seq<u8>,
    count: nat,
    passed: Seq<u8>,
    lines: Seq<Seq<u8>>,
    rest: Seq<u8>,
)
    requires
        is_unambiguous(config),
        config.term.terminates(LF),
        config.find_a_record_end_max_tries > 1,
        !lead.contains(LF),
        is_record_line(config, long, count),
        count > config.num_fields,
        !long.contains(LF),
        is_record_line(config, passed, config.num_fields as nat),
        !passed.contains(LF),
        lines.len() == config.find_a_record_end_required_good_scans,
        lines.len() > 0,
        forall|i: int|
            0 <= i < lines.len() ==> is_record_line(
                config,
                #[trigger] lines[i],
                config.num_fields as nat,
            ),
    ensures
        ({
            let before = lead + seq![LF] + long + seq![LF] + passed;
            let buffer = before + text_of(lines) + seq![LF] + rest;
            let at_line_end = config.scan_outcome(buffer.skip(lead.len() as int))
                == ScanOutcome::Rejected(long.len() + 1);
            let scanned = if at_line_end {
                lines
            } else {
                lines.drop_last()
            };
            config.search_outcome(buffer) == SearchOutcome::Found(
                before.len() + text_of(scanned).len(),
            )
        }),
{
    let before = lead + seq![LF] + long + seq![LF] + passed;
    let buffer = before + text_of(lines) + seq![LF] + rest;
    assert forall|i: int| 0 <= i < lead.len() implies buffer[i] != LF by {
        assert(buffer[i] == lead[i]);
    }
    assert(buffer[lead.len() as int] == LF);
    lemma_first_from_is(buffer, 0, set![LF], lead.len());
    law_search_goes_on_behind_a_long_record(config, lead, long, count, passed, lines, rest, 0, 0);
}

} // verus!
