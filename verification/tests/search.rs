use csv_records::finite_automata::FindARecordEndError;
use csv_records::finite_automata::FiniteAutomata;
use csv_records::finite_automata::Nfa;
use csv_records::finite_automata::Offset;

const RECORD: &[u8] = b"a,b,c,d,e,f,g,h\n";
const CRLF_RECORD: &[u8] = b"a,b,c,d,e,f,g,h\r\n";

fn text(parts: &[(&[u8], usize)]) -> Vec<u8> {
    let mut all = Vec::new();
    for (part, times) in parts {
        for _ in 0..*times {
            all.extend_from_slice(part);
        }
    }
    all
}

fn found(n: usize) -> Result<Offset, FindARecordEndError> {
    Ok(Offset(n))
}

fn exhausted() -> Result<Offset, FindARecordEndError> {
    Err(FindARecordEndError::InputExhausted)
}

fn gave_up() -> Result<Offset, FindARecordEndError> {
    Err(FindARecordEndError::ExceededMaxTries)
}

#[test]
fn finds_the_end_of_the_third_record() {
    let nfa = Nfa::default();
    let buffer = text(&[(b"rest\n", 1), (RECORD, 3)]);
    assert_eq!(nfa.find_a_record_end(&buffer), found(52));
    assert_eq!(buffer[52], b'\n');
    let buffer = text(&[(b"rest\n", 1), (RECORD, 7)]);
    assert_eq!(nfa.find_a_record_end(&buffer), found(52));
}

#[test]
fn finds_the_end_of_crlf_records() {
    let nfa = Nfa::default();
    let buffer = text(&[(b"rest\r\n", 1), (CRLF_RECORD, 3)]);
    assert_eq!(nfa.find_a_record_end(&buffer), found(56));
    assert_eq!(buffer[56], b'\n');
}

#[test]
fn finds_the_end_of_quoted_records() {
    let nfa = Nfa::default();
    let buffer = text(&[(b"tail,\"of\n", 1), (b"\"x\ny\",b,c,d,e,f,g,\"h\"\"i\"\n", 3)]);
    assert_eq!(nfa.find_a_record_end(&buffer), found(83));
}

#[test]
fn passes_over_empty_lines() {
    let nfa = Nfa::default();
    let buffer = text(&[(b"x\n\n\n", 1), (RECORD, 3)]);
    assert_eq!(nfa.find_a_record_end(&buffer), found(51));
}

#[test]
fn runs_out_of_input() {
    let nfa = Nfa::default();
    assert_eq!(nfa.find_a_record_end(b""), exhausted());
    assert_eq!(nfa.find_a_record_end(b"rest"), exhausted());
    let buffer = text(&[(b"rest\n", 1), (RECORD, 2), (b"a,b,c,d,e,f,g,h", 1)]);
    assert_eq!(nfa.find_a_record_end(&buffer), exhausted());
    let buffer = text(&[(b"\n", 1), (b"a,b\n", 5)]);
    assert_eq!(nfa.find_a_record_end(&buffer), exhausted());
    assert_eq!(nfa.find_a_record_end(b"\nx,y\n"), exhausted());
}

#[test]
fn gives_up_after_five_tries() {
    let nfa = Nfa::default();
    assert_eq!(nfa.find_a_record_end(&text(&[(b"\n", 1), (b"a,b\n", 10)])), gave_up());
    assert_eq!(nfa.find_a_record_end(&text(&[(b"\n", 1), (b"a,b\r\n", 10)])), gave_up());
}

#[test]
fn goes_on_at_the_next_line_feed() {
    let nfa = Nfa::default();
    let buffer = text(&[(b"\n1,2\n", 1), (b"1,2,3,4,5,6,7,8\n", 4)]);
    assert_eq!(nfa.find_a_record_end(&buffer), found(68));
    let buffer = text(&[(b"\nx,y\n", 1), (RECORD, 20)]);
    assert_eq!(nfa.find_a_record_end(&buffer), found(68));
    let buffer = text(&[(b"\nx,y\n\n", 1), (RECORD, 6)]);
    assert_eq!(nfa.find_a_record_end(&buffer), found(53));
}

#[test]
fn a_short_record_costs_one_try() {
    let mut nfa = Nfa::default();
    nfa.config.num_fields = 3;
    let buffer = text(&[(b"x\nyz,\"q\"\nskipped", 1), (b"\n1,2,3", 4), (b"\n", 1)]);
    for tries in 2..6 {
        nfa.config.find_a_record_end_max_tries = tries;
        assert_eq!(nfa.find_a_record_end(&buffer), found(34));
    }
    nfa.config.find_a_record_end_max_tries = 1;
    assert_eq!(nfa.find_a_record_end(&buffer), gave_up());
}

#[test]
fn a_long_record_costs_one_try() {
    let mut nfa = Nfa::default();
    nfa.config.num_fields = 3;
    let cases: [(&[u8], usize); 5] = [
        (b"1,2,3,4", 33),
        (b"1,2,3,4\r", 34),
        (b"1,2,3,4,5", 35),
        (b"1,2,3,4,5\r", 30),
        (b"1,2,3,4,5,6", 31),
    ];
    for (long, end) in cases {
        let buffer = text(&[(b"x\n", 1), (long, 1), (b"\n1,2,3", 5), (b"\n", 1)]);
        nfa.config.find_a_record_end_max_tries = 2;
        assert_eq!(nfa.find_a_record_end(&buffer), found(end));
        nfa.config.find_a_record_end_max_tries = 1;
        assert_eq!(nfa.find_a_record_end(&buffer), gave_up());
    }
}

#[test]
fn finds_the_end_of_cr_records() {
    let nfa = Nfa::default();
    let buffer = text(&[(b"rest\n", 1), (b"a,b,c,d,e,f,g,h\r", 5)]);
    assert_eq!(nfa.find_a_record_end(&buffer), found(53));
    assert_eq!(buffer[52], b'\r');
}

#[test]
fn recovers_at_crlf() {
    let nfa = Nfa::default();
    let buffer = text(&[(b"\nx,y\r\n", 1), (CRLF_RECORD, 4)]);
    assert_eq!(nfa.find_a_record_end(&buffer), found(73));
    let buffer = text(&[(b"\nx,y\r\n", 1), (CRLF_RECORD, 5)]);
    assert_eq!(nfa.find_a_record_end(&buffer), found(73));
}

#[test]
fn may_find_the_end_of_the_buffer() {
    let nfa = Nfa::default();
    let buffer = text(&[(b"\n", 1), (RECORD, 2), (b"a,b,c,d,e,f,g,h\r", 1)]);
    assert_eq!(buffer.len(), 49);
    assert_eq!(nfa.find_a_record_end(&buffer), found(49));
}

#[test]
fn no_good_scans_required() {
    let mut nfa = Nfa::default();
    nfa.config.find_a_record_end_required_good_scans = 0;
    assert_eq!(nfa.find_a_record_end(b"ab\ncd"), found(2));
    nfa.config.find_a_record_end_max_tries = 0;
    assert_eq!(nfa.find_a_record_end(b"ab\ncd"), found(2));
}

#[test]
fn no_tries_allowed() {
    let mut nfa = Nfa::default();
    nfa.config.find_a_record_end_max_tries = 0;
    assert_eq!(nfa.find_a_record_end(b"ab\ncd"), gave_up());
    assert_eq!(nfa.find_a_record_end(b"abcd"), exhausted());
}

#[test]
fn what_is_found_follows_good_scans() {
    let nfa = Nfa::default();
    let buffer = text(&[(b"\nx,y\r\n", 1), (CRLF_RECORD, 4)]);
    let mut at = 22;
    assert_eq!(buffer[at], b'\n');
    for _ in 0..3 {
        match nfa.scan_record(&buffer[at..]) {
            Ok(Offset(n)) => at += n,
            Err(_) => panic!("no record at {at}"),
        }
    }
    assert_eq!(nfa.find_a_record_end(&buffer), found(at));
}

#[test]
fn decided_searches_stay_decided() {
    let nfa = Nfa::default();
    for buffer in [
        text(&[(b"rest\n", 1), (RECORD, 3)]),
        text(&[(b"\n", 1), (b"a,b\n", 10)]),
    ] {
        let r = nfa.find_a_record_end(&buffer);
        assert_ne!(r, exhausted());
        for more in [b"\n".as_slice(), b"\"", b",x\n", b"a,b,c\r\n"] {
            let mut all = buffer.clone();
            all.extend_from_slice(more);
            assert_eq!(nfa.find_a_record_end(&all), r);
        }
    }
}
