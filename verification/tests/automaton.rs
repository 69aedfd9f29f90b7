use csv_records::finite_automata::scan;
use csv_records::finite_automata::FiniteAutomata;
use csv_records::finite_automata::Nfa;
use csv_records::finite_automata::NfaAction;
use csv_records::finite_automata::NfaState;
use csv_records::finite_automata::Offset;
use csv_records::finite_automata::ParserConfig;
use csv_records::finite_automata::ScanAction;
use csv_records::finite_automata::ScanRecordError;
use csv_records::finite_automata::Terminator;

const STATES: [NfaState; 12] = [
    NfaState::EndFieldTerm,
    NfaState::InRecordTerm,
    NfaState::StartRecord,
    NfaState::StartField,
    NfaState::InField,
    NfaState::InQuotedField,
    NfaState::InEscapedQuote,
    NfaState::InDoubleEscapedQuote,
    NfaState::InComment,
    NfaState::EndFieldDelim,
    NfaState::EndRecord,
    NfaState::CRLF,
];

fn with_fields(num_fields: u32) -> Nfa {
    let mut nfa = Nfa::default();
    nfa.config.num_fields = num_fields;
    nfa
}

fn accepted(n: usize) -> Result<Offset, ScanRecordError> {
    Ok(Offset(n))
}

fn rejected(n: usize) -> Result<Offset, ScanRecordError> {
    Err(ScanRecordError::WrongNumOfFields(Offset(n)))
}

fn exhausted() -> Result<Offset, ScanRecordError> {
    Err(ScanRecordError::InputExhausted)
}

/// The state after one byte is consumed.
fn consume(nfa: &Nfa, state: NfaState, c: u8) -> NfaState {
    let mut state = state;
    loop {
        let (next, action, _) = nfa.transition_nfa(state, c);
        state = next;
        if action != NfaAction::Epsilon {
            return state;
        }
    }
}

#[test]
fn terminator_crlf() {
    let term = Terminator::default();
    assert_eq!(term, Terminator::CRLF);
    assert!(term.is_crlf());
    assert!(term.equals(b'\r'));
    assert!(term.equals(b'\n'));
    assert!(!term.equals(b'a'));
}

#[test]
fn terminator_any() {
    let term = Terminator::Any(b';');
    assert!(!term.is_crlf());
    assert!(term.equals(b';'));
    assert!(!term.equals(b'\r'));
    assert!(!term.equals(b'\n'));
}

#[test]
fn default_configuration() {
    let config = ParserConfig::default();
    assert_eq!(config.delimiter, b',');
    assert_eq!(config.term, Terminator::CRLF);
    assert_eq!(config.quote, b'"');
    assert_eq!(config.escape, None);
    assert!(config.double_quote);
    assert_eq!(config.comment, None);
    assert!(config.quoting);
    assert_eq!(config.num_fields, 8);
    assert_eq!(config.find_a_record_end_max_tries, 5);
    assert_eq!(config.find_a_record_end_required_good_scans, 3);
    let copy = config.clone();
    assert_eq!(copy.num_fields, 8);
    assert_eq!(copy.delimiter, b',');
    assert_eq!(Nfa::default().config.find_a_record_end_max_tries, 5);
}

#[test]
fn field_final_states() {
    for state in STATES {
        let expected = matches!(
            state,
            NfaState::EndRecord | NfaState::CRLF | NfaState::EndFieldDelim
        );
        assert_eq!(state.is_field_final(), expected);
    }
}

#[test]
fn transitions_of_the_default_configuration() {
    let nfa = Nfa::default();
    let cases = [
        (NfaState::StartRecord, b'\n', NfaState::StartRecord, NfaAction::Discard, ScanAction::ScanUnquoted),
        (NfaState::StartRecord, b'\r', NfaState::StartRecord, NfaAction::Discard, ScanAction::ScanUnquoted),
        (NfaState::StartRecord, b'a', NfaState::StartField, NfaAction::Epsilon, ScanAction::NoScan),
        (NfaState::EndRecord, b'a', NfaState::StartRecord, NfaAction::Epsilon, ScanAction::NoScan),
        (NfaState::StartField, b'"', NfaState::InQuotedField, NfaAction::Discard, ScanAction::ScanQuoted),
        (NfaState::StartField, b',', NfaState::EndFieldDelim, NfaAction::Discard, ScanAction::ScanUnquoted),
        (NfaState::StartField, b'\n', NfaState::EndFieldTerm, NfaAction::Epsilon, ScanAction::NoScan),
        (NfaState::StartField, b'a', NfaState::InField, NfaAction::CopyToOutput, ScanAction::ScanUnquoted),
        (NfaState::EndFieldDelim, b'a', NfaState::StartField, NfaAction::Epsilon, ScanAction::NoScan),
        (NfaState::EndFieldTerm, b'\n', NfaState::InRecordTerm, NfaAction::Epsilon, ScanAction::NoScan),
        (NfaState::InField, b',', NfaState::EndFieldDelim, NfaAction::Discard, ScanAction::ScanUnquoted),
        (NfaState::InField, b'\r', NfaState::EndFieldTerm, NfaAction::Epsilon, ScanAction::NoScan),
        (NfaState::InField, b'"', NfaState::InField, NfaAction::CopyToOutput, ScanAction::ScanUnquoted),
        (NfaState::InQuotedField, b'"', NfaState::InDoubleEscapedQuote, NfaAction::Discard, ScanAction::AdvanceOne),
        (NfaState::InQuotedField, b'\\', NfaState::InQuotedField, NfaAction::CopyToOutput, ScanAction::ScanQuoted),
        (NfaState::InQuotedField, b',', NfaState::InQuotedField, NfaAction::CopyToOutput, ScanAction::ScanQuoted),
        (NfaState::InEscapedQuote, b'"', NfaState::InQuotedField, NfaAction::CopyToOutput, ScanAction::ScanQuoted),
        (NfaState::InDoubleEscapedQuote, b'"', NfaState::InQuotedField, NfaAction::CopyToOutput, ScanAction::ScanQuoted),
        (NfaState::InDoubleEscapedQuote, b',', NfaState::EndFieldDelim, NfaAction::Discard, ScanAction::ScanUnquoted),
        (NfaState::InDoubleEscapedQuote, b'\n', NfaState::EndFieldTerm, NfaAction::Epsilon, ScanAction::NoScan),
        (NfaState::InDoubleEscapedQuote, b'a', NfaState::InField, NfaAction::CopyToOutput, ScanAction::ScanUnquoted),
        (NfaState::InComment, b'\n', NfaState::StartRecord, NfaAction::Discard, ScanAction::ScanUnquoted),
        (NfaState::InComment, b'a', NfaState::InComment, NfaAction::Discard, ScanAction::ScanComment),
        (NfaState::InRecordTerm, b'\r', NfaState::CRLF, NfaAction::Discard, ScanAction::AdvanceOne),
        (NfaState::InRecordTerm, b'\n', NfaState::EndRecord, NfaAction::Discard, ScanAction::NoScan),
        (NfaState::CRLF, b'\n', NfaState::StartRecord, NfaAction::Discard, ScanAction::NoScan),
        (NfaState::CRLF, b'a', NfaState::StartRecord, NfaAction::Epsilon, ScanAction::NoScan),
    ];
    for (state, c, next, action, scan_action) in cases {
        assert_eq!(nfa.transition_nfa(state, c), (next, action, scan_action));
    }
}

#[test]
fn transitions_of_other_configurations() {
    let mut nfa = Nfa::default();
    nfa.config.comment = Some(b'#');
    nfa.config.escape = Some(b'\\');
    nfa.config.double_quote = false;
    nfa.config.term = Terminator::Any(b'\r');
    assert_eq!(
        nfa.transition_nfa(NfaState::StartRecord, b'#'),
        (NfaState::InComment, NfaAction::Discard, ScanAction::ScanComment)
    );
    assert_eq!(
        nfa.transition_nfa(NfaState::InQuotedField, b'\\'),
        (NfaState::InEscapedQuote, NfaAction::Discard, ScanAction::ScanQuoted)
    );
    assert_eq!(
        nfa.transition_nfa(NfaState::InDoubleEscapedQuote, b'"'),
        (NfaState::InField, NfaAction::CopyToOutput, ScanAction::ScanUnquoted)
    );
    assert_eq!(
        nfa.transition_nfa(NfaState::InRecordTerm, b'\r'),
        (NfaState::EndRecord, NfaAction::Discard, ScanAction::NoScan)
    );
    nfa.config.quoting = false;
    assert_eq!(
        nfa.transition_nfa(NfaState::StartField, b'"'),
        (NfaState::InField, NfaAction::CopyToOutput, ScanAction::ScanUnquoted)
    );
    assert_eq!(
        nfa.transition_nfa(NfaState::InQuotedField, b'\\'),
        (NfaState::InQuotedField, NfaAction::CopyToOutput, ScanAction::ScanQuoted)
    );
}

#[test]
fn epsilon_does_not_move() {
    let nfa = Nfa::default();
    for state in STATES {
        for c in 0..=255u8 {
            let (next, action, scan_action) = nfa.transition_nfa(state, c);
            if action == NfaAction::Epsilon {
                assert_eq!(scan_action, ScanAction::NoScan);
            }
            if !(state == NfaState::CRLF && c == b'\n') {
                assert_eq!(
                    scan_action == ScanAction::NoScan,
                    action == NfaAction::Epsilon || next == NfaState::EndRecord
                );
            }
        }
    }
}

#[test]
fn crlf_is_one_terminator() {
    let nfa = Nfa::default();
    for state in [NfaState::StartField, NfaState::InField, NfaState::InDoubleEscapedQuote] {
        assert_eq!(consume(&nfa, state, b'\n'), NfaState::EndRecord);
        assert_eq!(consume(&nfa, state, b'\r'), NfaState::CRLF);
    }
    assert_eq!(consume(&nfa, NfaState::CRLF, b'\n'), NfaState::StartRecord);
    assert_eq!(consume(&nfa, NfaState::CRLF, b'a'), NfaState::InField);
    assert_eq!(consume(&nfa, NfaState::EndRecord, b'a'), NfaState::InField);
}

#[test]
fn any_is_one_terminator() {
    let mut nfa = Nfa::default();
    nfa.config.term = Terminator::Any(b';');
    for state in [NfaState::StartField, NfaState::InField, NfaState::InDoubleEscapedQuote] {
        assert_eq!(consume(&nfa, state, b';'), NfaState::EndRecord);
    }
    assert_eq!(consume(&nfa, NfaState::InField, b'\r'), NfaState::InField);
}

#[test]
fn what_is_switched_off_is_not_entered() {
    let mut nfa = Nfa::default();
    nfa.config.quoting = false;
    for state in STATES {
        for c in 0..=255u8 {
            let (next, _, _) = nfa.transition_nfa(state, c);
            assert_ne!(next, NfaState::InEscapedQuote);
            assert_ne!(next, NfaState::InDoubleEscapedQuote);
            if state != NfaState::InComment {
                assert_ne!(next, NfaState::InComment);
            }
        }
    }
    assert_eq!(consume(&nfa, NfaState::StartRecord, b'"'), NfaState::InField);
}

#[test]
fn quoted_content() {
    let mut nfa = Nfa::default();
    nfa.config.escape = Some(b'\\');
    assert_eq!(consume(&nfa, NfaState::InQuotedField, b','), NfaState::InQuotedField);
    assert_eq!(consume(&nfa, NfaState::InQuotedField, b'\n'), NfaState::InQuotedField);
    let quote = consume(&nfa, NfaState::InQuotedField, b'"');
    assert_eq!(consume(&nfa, quote, b'"'), NfaState::InQuotedField);
    let escape = consume(&nfa, NfaState::InQuotedField, b'\\');
    assert_eq!(consume(&nfa, escape, b'"'), NfaState::InQuotedField);
}

#[test]
fn bytes_that_a_scan_passes_over() {
    let mut other = Nfa::default();
    other.config.delimiter = b';';
    other.config.quote = b'\'';
    other.config.escape = Some(b'!');
    other.config.term = Terminator::Any(b'~');
    for nfa in [Nfa::default(), other] {
        let cases = [
            (NfaState::InField, ScanAction::ScanUnquoted),
            (NfaState::InQuotedField, ScanAction::ScanQuoted),
            (NfaState::InComment, ScanAction::ScanComment),
        ];
        for (state, scan_action) in cases {
            for c in 0..=255u8 {
                if nfa.scan_on(&scan_action, &[b'x', c]).is_none() {
                    assert_eq!(nfa.transition_nfa(state, c).0, state);
                }
            }
        }
    }
}

#[test]
fn scan_without_search() {
    assert_eq!(scan(&ScanAction::AdvanceOne, b""), Some(Offset(1)));
    assert_eq!(scan(&ScanAction::AdvanceOne, b"abc"), Some(Offset(1)));
    assert_eq!(scan(&ScanAction::NoScan, b""), Some(Offset(0)));
    assert_eq!(scan(&ScanAction::NoScan, b"abc"), Some(Offset(0)));
}

#[test]
fn scan_for_the_end_of_a_comment() {
    assert_eq!(scan(&ScanAction::ScanComment, b"\n,\"\\\nx"), Some(Offset(4)));
    assert_eq!(scan(&ScanAction::ScanComment, b"\nabc"), None);
    assert_eq!(scan(&ScanAction::ScanComment, b""), None);
}

#[test]
fn scan_in_quotes() {
    assert_eq!(scan(&ScanAction::ScanQuoted, b"\"a,\n\"b"), Some(Offset(4)));
    assert_eq!(scan(&ScanAction::ScanQuoted, b"\"a,\n\\\""), Some(Offset(4)));
    assert_eq!(scan(&ScanAction::ScanQuoted, b"\"a,\n"), None);
    assert_eq!(scan(&ScanAction::ScanQuoted, b""), None);
}

#[test]
fn scan_outside_of_quotes() {
    assert_eq!(scan(&ScanAction::ScanUnquoted, b",ab,c"), Some(Offset(3)));
    assert_eq!(scan(&ScanAction::ScanUnquoted, b",a\"b,c"), Some(Offset(2)));
    assert_eq!(scan(&ScanAction::ScanUnquoted, b",a\r\nc"), Some(Offset(3)));
    assert_eq!(scan(&ScanAction::ScanUnquoted, b",a\\r"), None);
    assert_eq!(scan(&ScanAction::ScanUnquoted, b","), None);
    assert_eq!(scan(&ScanAction::ScanUnquoted, b""), None);
}

#[test]
fn scan_with_the_bytes_of_the_configuration() {
    let nfa = Nfa::default();
    assert_eq!(nfa.scan_on(&ScanAction::ScanUnquoted, b",ab,c"), Some(Offset(3)));
    assert_eq!(nfa.scan_on(&ScanAction::ScanUnquoted, b",a\r\nc"), Some(Offset(2)));
    assert_eq!(nfa.scan_on(&ScanAction::ScanUnquoted, b",ab\r"), Some(Offset(3)));
    assert_eq!(nfa.scan_on(&ScanAction::ScanUnquoted, b",ab"), None);
    assert_eq!(nfa.scan_on(&ScanAction::ScanUnquoted, b""), None);
    assert_eq!(nfa.scan_on(&ScanAction::ScanQuoted, b"\"a\r\n\\\""), Some(Offset(4)));
    assert_eq!(nfa.scan_on(&ScanAction::ScanComment, b"#a\r\n"), Some(Offset(3)));
    assert_eq!(nfa.scan_on(&ScanAction::AdvanceOne, b"ab"), Some(Offset(1)));
    assert_eq!(nfa.scan_on(&ScanAction::NoScan, b"ab"), Some(Offset(0)));

    let mut nfa = Nfa::default();
    nfa.config.delimiter = b';';
    nfa.config.quote = b'\'';
    nfa.config.escape = Some(b'!');
    nfa.config.term = Terminator::Any(b'~');
    assert_eq!(nfa.scan_on(&ScanAction::ScanUnquoted, b"xab;,"), Some(Offset(3)));
    assert_eq!(nfa.scan_on(&ScanAction::ScanUnquoted, b"xab'"), Some(Offset(3)));
    assert_eq!(nfa.scan_on(&ScanAction::ScanUnquoted, b"x\rb~"), Some(Offset(3)));
    assert_eq!(nfa.scan_on(&ScanAction::ScanUnquoted, b"xab,;"), Some(Offset(3)));
    assert_eq!(nfa.scan_on(&ScanAction::ScanQuoted, b"xa!'"), Some(Offset(2)));
    assert_eq!(nfa.scan_on(&ScanAction::ScanQuoted, b"xab'"), Some(Offset(3)));
    assert_eq!(nfa.scan_on(&ScanAction::ScanQuoted, b"x;~\n"), None);
}

#[test]
fn records_with_the_right_number_of_fields() {
    let nfa = Nfa::default();
    assert_eq!(nfa.scan_record(b"a,b,c,d,e,f,g,h\n"), accepted(15));
    assert_eq!(nfa.scan_record(b",,,,,,,\n"), accepted(7));
    assert_eq!(nfa.scan_record(b"\n\na,b,c,d,e,f,g,h\n"), accepted(17));
    assert_eq!(nfa.scan_record(b"\r\na,b,c,d,e,f,g,h\n"), accepted(17));
    assert_eq!(with_fields(1).scan_record(b"a\n"), accepted(1));
}

#[test]
fn records_with_the_wrong_number_of_fields() {
    let nfa = Nfa::default();
    assert_eq!(nfa.scan_record(b"a,b,c,d,e,f,g\n"), rejected(13));
    assert_eq!(nfa.scan_record(b"a,b,c,d,e,f,g,h,i\n"), rejected(17));
    assert_eq!(nfa.scan_record(b"a,b,c,d,e,f,g,h,i,j\n"), rejected(19));
    assert_eq!(nfa.scan_record(b"a,b,c,d,e,f,g,h,i,jkl,m"), rejected(21));
    assert_eq!(with_fields(0).scan_record(b"a\n"), rejected(1));
    assert_eq!(with_fields(0).scan_record(b"a,b\n"), rejected(3));
}

#[test]
fn records_that_do_not_end() {
    let nfa = Nfa::default();
    assert_eq!(nfa.scan_record(b""), exhausted());
    assert_eq!(nfa.scan_record(b"\n"), exhausted());
    assert_eq!(nfa.scan_record(b"a,b"), exhausted());
    assert_eq!(nfa.scan_record(b"a,b,c,d,e,f,g,\"h\n"), exhausted());
}

#[test]
fn quoted_fields() {
    let nfa = Nfa::default();
    assert_eq!(nfa.scan_record(b"\"x,\ny\",b,c,d,e,f,g,h\n"), accepted(20));
    assert_eq!(nfa.scan_record(b"\"a\"\"b\",b,c,d,e,f,g,h\n"), accepted(20));
    assert_eq!(nfa.scan_record(b"a,b,c,d,e,f,g,\"h\"x\n"), accepted(18));
    assert_eq!(with_fields(2).scan_record(b"\"a\\\"b\",c\n"), accepted(8));
}

#[test]
fn a_quote_inside_of_a_bare_field_is_where_the_scan_lands() {
    let nfa = Nfa::default();
    assert_eq!(nfa.scan_record(b"a,b\"c,d\",e,f,g,h,i,j\n"), accepted(20));
}

#[test]
fn lines_that_end_with_crlf() {
    let nfa = Nfa::default();
    assert_eq!(nfa.scan_record(b"a,b,c,d,e,f,g,h\r\n"), accepted(16));
    assert_eq!(nfa.scan_record(b"a,b,c,d,e,f,g,\"h\"\r\n"), accepted(18));
    assert_eq!(nfa.scan_record(b"a,b\r\n"), rejected(4));
}

#[test]
fn lines_that_end_with_cr() {
    let nfa = Nfa::default();
    assert_eq!(nfa.scan_record(b"1,2,3,4,5,6,7,8\r1,2,3,4,5,6,7,8\n"), accepted(16));
    assert_eq!(nfa.scan_record(b"a,b,c,d,e,f,g,h\r"), accepted(16));
    assert_eq!(nfa.scan_record(b"a,b,c,d,e,f,g,h\rx\n"), accepted(16));
    assert_eq!(nfa.scan_record(b"\ra,b,c,d,e,f,g,h\r"), accepted(17));
    assert_eq!(nfa.scan_record(b"a,b,c,d,e,f,g,\"h\"\r"), accepted(18));
    assert_eq!(nfa.scan_record(b"a,b\rc,d\r"), rejected(4));
}

#[test]
fn cr_lf_and_crlf_are_one_terminator() {
    let nfa = with_fields(3);
    let records: [&[u8]; 4] = [b"a,b,c", b"a,\"b,\r\n\",c", b",,", b"\"a\"\"b\",,\"\""];
    for record in records {
        for (term, end) in [(b"\n".as_slice(), 0), (b"\r", 1), (b"\r\n", 1)] {
            let mut input = record.to_vec();
            input.extend_from_slice(term);
            input.extend_from_slice(record);
            input.extend_from_slice(term);
            assert_eq!(nfa.scan_record(&input), accepted(record.len() + end));
            let next = &input[record.len() + end..];
            assert_eq!(nfa.scan_record(next), accepted(record.len() + term.len()));
        }
    }
}

#[test]
fn records_of_other_configurations() {
    let mut nfa = with_fields(2);
    nfa.config.escape = Some(b'\\');
    assert_eq!(nfa.scan_record(b"\"a\\\"b\",c\n"), accepted(8));

    let mut nfa = with_fields(2);
    nfa.config.double_quote = false;
    assert_eq!(nfa.scan_record(b"\"a\"\"b\",c\n"), accepted(8));

    let mut nfa = with_fields(2);
    nfa.config.quoting = false;
    assert_eq!(nfa.scan_record(b"\"a,b\"\n"), accepted(5));

    let mut nfa = with_fields(2);
    nfa.config.comment = Some(b'#');
    assert_eq!(nfa.scan_record(b"#x,y\na,b\n"), accepted(8));

    let mut nfa = with_fields(2);
    nfa.config.term = Terminator::Any(b';');
    assert_eq!(nfa.scan_record(b"a,b;c,d;\n"), accepted(3));
    nfa.config.num_fields = 1;
    assert_eq!(nfa.scan_record(b"\",\";"), accepted(3));
}

#[test]
fn bytes_of_the_configuration_end_a_scan() {
    let mut nfa = with_fields(3);
    nfa.config.delimiter = b';';
    assert_eq!(nfa.scan_record(b"ab;cd;ef\n"), accepted(8));

    let mut nfa = with_fields(2);
    nfa.config.quote = b'\'';
    assert_eq!(nfa.scan_record(b"'a,b',c\n"), accepted(7));
    assert_eq!(nfa.scan_record(b"'a''b',c\n"), accepted(8));
    nfa.config.escape = Some(b'!');
    assert_eq!(nfa.scan_record(b"'a!',b',c\n"), accepted(9));
    assert_eq!(nfa.scan_record(b"'a!!',c\n"), accepted(7));

    let mut nfa = with_fields(2);
    nfa.config.delimiter = b'|';
    nfa.config.term = Terminator::Any(b'~');
    assert_eq!(nfa.scan_record(b"a|b~c|d~"), accepted(3));
    assert_eq!(nfa.scan_record(b"a|b\nc|d~"), rejected(7));
    assert_eq!(nfa.scan_record(b"~a|b~"), accepted(4));
}

#[test]
fn an_escape_reaches_the_next_quote_or_escape() {
    let mut nfa = with_fields(2);
    nfa.config.quote = b'\'';
    nfa.config.escape = Some(b'!');
    assert_eq!(nfa.scan_record(b"'a!b',c\n"), exhausted());
    assert_eq!(nfa.scan_record(b"'a!b'c',d\n"), accepted(9));
    assert_eq!(nfa.scan_record(b"'a!b','c',d\n"), accepted(11));
}

#[test]
fn decided_scans_stay_decided() {
    let nfa = Nfa::default();
    let inputs: [&[u8]; 4] = [
        b"a,b,c,d,e,f,g,h\n",
        b"a,b\n",
        b"a,b,c,d,e,f,g,\"h\"\r",
        b"\"x\"\"y\",,,,,,,\n",
    ];
    for input in inputs {
        let r = nfa.scan_record(input);
        assert_ne!(r, exhausted());
        for more in [b"\n".as_slice(), b"\"", b",", b"x,y\n", b"\r\n"] {
            let mut all = input.to_vec();
            all.extend_from_slice(more);
            assert_eq!(nfa.scan_record(&all), r);
        }
    }
}

#[test]
fn a_scan_may_start_at_crlf() {
    let nfa = Nfa::default();
    assert_eq!(nfa.scan_record(b"\na,b,c,d,e,f,g,h\r\n"), accepted(17));
    assert_eq!(nfa.scan_record(b"\r\na,b,c,d,e,f,g,h\r\n"), accepted(18));
    assert_eq!(nfa.scan_record(b"\na,b\r\n"), rejected(5));
    assert_eq!(nfa.scan_record(b"\r\na,b\r\n"), rejected(6));
}
