//! The automaton that recognises CSV records, and the search for a record end.

use vstd::prelude::*;
use vstd::slice::slice_subrange;

use crate::byte_search::first_from;
use crate::byte_search::lemma_first_from;
use crate::byte_search::lemma_first_from_shift;

verus! {

/// Line feed, `\n`.
pub const LF: u8 = 0x0a;

/// Carriage return, `\r`.
pub const CR: u8 = 0x0d;

/// The double quote, `"`.
pub const QUOTE: u8 = 0x22;

/// The comma, `,`.
pub const COMMA: u8 = 0x2c;

/// The backslash, `\`.
pub const BACKSLASH: u8 = 0x5c;

/// What ends a record.
#[derive(Clone, Copy, Debug, PartialEq, Eq, Structural)]
pub enum Terminator {
    /// Parses `\r`, `\n` or `\r\n` as a single record terminator.
    CRLF,
    /// Parses the byte given as a record terminator.
    Any(u8),
}

impl Default for Terminator {
    fn default() -> (term: Terminator)
        ensures
            term == Terminator::CRLF,
    {
        Terminator::CRLF
    }
}

impl Terminator {
    /// Whether the byte `b` terminates a record.
    pub open spec fn terminates(self, b: u8) -> bool {
        match self {
            Terminator::CRLF => b == CR || b == LF,
            Terminator::Any(t) => b == t,
        }
    }

    /// Checks whether the terminator is set to CRLF.
    pub fn is_crlf(&self) -> (r: bool)
        ensures
            r == (*self == Terminator::CRLF),
    {
        match *self {
            Terminator::CRLF => true,
            Terminator::Any(_) => false,
        }
    }

    /// Checks whether the byte `other` terminates a record.
    pub fn equals(&self, other: u8) -> (r: bool)
        ensures
            r == self.terminates(other),
    {
        match *self {
            Terminator::CRLF => other == CR || other == LF,
            Terminator::Any(b) => other == b,
        }
    }
}

/// A distance in bytes from the start of a slice.
#[derive(Copy, Clone, Debug, PartialEq, Eq, Structural)]
pub struct Offset(pub usize);

/// The automaton, for one configuration.
pub struct Nfa {
    pub config: ParserConfig,
}

impl Default for Nfa {
    fn default() -> (nfa: Nfa)
        ensures
            nfa.config == ParserConfig::standard(),
    {
        Nfa { config: ParserConfig::default() }
    }
}

/// What a transition does with the input byte.
#[derive(Clone, Copy, Debug, PartialEq, Eq, Structural)]
pub enum NfaAction {
    /// Do not consume an input byte.
    Epsilon,
    /// Copy the input byte to a caller-provided output buffer.
    CopyToOutput,
    /// Consume but do not copy the input byte (for example, seeing a field
    /// delimiter consumes an input byte but does not copy it to the output).
    Discard,
}

/// How far the position moves after a transition. A scan of the automaton stops at
/// the bytes named here and at those that its configuration adds.
#[derive(Clone, Copy, Debug, PartialEq, Eq, Structural)]
pub enum ScanAction {
    /// On to the next double quote, comma or line feed.
    ScanUnquoted,
    /// On to the next double quote or backslash.
    ScanQuoted,
    /// On by one byte.
    AdvanceOne,
    /// Not at all.
    NoScan,
    /// On to the next line feed.
    ScanComment,
}

impl ScanAction {
    /// The bytes at which a scan stops whatever the configuration.
    pub open spec fn targets(self) -> Set<u8> {
        match self {
            ScanAction::ScanUnquoted => set![QUOTE, COMMA, LF],
            ScanAction::ScanQuoted => set![QUOTE, BACKSLASH],
            ScanAction::ScanComment => set![LF],
            ScanAction::AdvanceOne => set![],
            ScanAction::NoScan => set![],
        }
    }

    /// The position that follows `pos` in `input`, for scans that stop at `stops`. A
    /// scan looks at the bytes after `pos` only; where it finds nothing there is none.
    pub open spec fn jump(self, input: Seq<u8>, pos: nat, stops: Set<u8>) -> Option<nat> {
        match self {
            ScanAction::NoScan => Some(pos),
            ScanAction::AdvanceOne => Some(pos + 1),
            _ => first_from(input, pos + 1, stops),
        }
    }
}

/// The states of the automaton.
#[derive(Copy, Clone, Debug, PartialEq, Eq, Structural)]
pub enum NfaState {
    /// A field has ended at a terminator, which is not consumed yet.
    EndFieldTerm,
    /// At the terminator of the record.
    InRecordTerm,
    /// Before the first field of a record.
    StartRecord,
    /// At the first byte of a field.
    StartField,
    /// In a field without quotes.
    InField,
    /// In a quoted field.
    InQuotedField,
    /// After the escape byte in a quoted field.
    InEscapedQuote,
    /// After a quote in a quoted field.
    InDoubleEscapedQuote,
    /// In a comment line.
    InComment,
    /// A field has been parsed: it ended at a delimiter.
    EndFieldDelim,
    /// A record has been parsed.
    EndRecord,
    /// A record has been parsed: it ended at a `\r`.
    CRLF,
}

impl NfaState {
    /// Whether a record has been parsed.
    pub open spec fn ends_record(self) -> bool {
        self == NfaState::EndRecord || self == NfaState::CRLF
    }

    /// Whether a field has been parsed. The last field of a record ends with it.
    pub open spec fn ends_field(self) -> bool {
        self.ends_record() || self == NfaState::EndFieldDelim
    }

    /// Returns true if this state indicates that a field has been parsed.
    pub fn is_field_final(&self) -> (r: bool)
        ensures
            r == self.ends_field(),
    {
        matches!(*self, NfaState::EndRecord | NfaState::CRLF | NfaState::EndFieldDelim)
    }

    /// Bounds the number of transitions in a row that leave the position where
    /// it is, before a record ends.
    pub open spec fn rank(self) -> nat {
        match self {
            NfaState::EndRecord | NfaState::CRLF => 5,
            NfaState::StartRecord | NfaState::EndFieldDelim => 4,
            NfaState::StartField | NfaState::InField | NfaState::InDoubleEscapedQuote => 3,
            NfaState::EndFieldTerm => 2,
            NfaState::InRecordTerm => 1,
            _ => 0,
        }
    }
}

/// How CSV is written, and when the search for a record end is satisfied.
#[derive(Debug)]
pub struct ParserConfig {
    /// Separates the fields of a record.
    pub delimiter: u8,
    /// Ends a record.
    pub term: Terminator,
    /// Opens and closes a quoted field.
    pub quote: u8,
    /// In a quoted field, makes the quote or the escape behind it part of the field. A
    /// scan passes over other bytes in between.
    pub escape: Option<u8>,
    /// Whether two quotes in a quoted field stand for one.
    pub double_quote: bool,
    /// Starts a comment line.
    pub comment: Option<u8>,
    /// Whether quoted fields are recognised.
    pub quoting: bool,
    /// How many fields a record has.
    pub num_fields: u32,
    /// How many scans may fail in the search for a record end.
    pub find_a_record_end_max_tries: u32,
    /// How many scans have to succeed in a row in the search for a record end.
    pub find_a_record_end_required_good_scans: u32,
}

impl Clone for ParserConfig {
    fn clone(&self) -> (config: ParserConfig)
        ensures
            config == *self,
    {
        ParserConfig {
            delimiter: self.delimiter,
            term: self.term,
            quote: self.quote,
            escape: self.escape,
            double_quote: self.double_quote,
            comment: self.comment,
            quoting: self.quoting,
            num_fields: self.num_fields,
            find_a_record_end_max_tries: self.find_a_record_end_max_tries,
            find_a_record_end_required_good_scans: self.find_a_record_end_required_good_scans,
        }
    }
}

impl Default for ParserConfig {
    fn default() -> (config: ParserConfig)
        ensures
            config == ParserConfig::standard(),
    {
        ParserConfig {
            delimiter: COMMA,
            term: Terminator::default(),
            quote: QUOTE,
            escape: None,
            double_quote: true,
            comment: None,
            quoting: true,
            num_fields: 8,
            find_a_record_end_max_tries: 5,
            find_a_record_end_required_good_scans: 3,
        }
    }
}

/// The outcome of scanning one record.
pub enum ScanOutcome {
    /// A record with the right number of fields ends at this position.
    Accepted(nat),
    /// The number of fields turned out wrong at this position.
    Rejected(nat),
    /// The input ended first.
    Exhausted,
}

/// The outcome of the search for a record end.
pub enum SearchOutcome {
    /// A record ends at this position.
    Found(nat),
    /// Too many scans failed.
    GaveUp,
    /// The input ended first.
    Exhausted,
}

/// A place in the run of the automaton over an input.
pub struct Cursor {
    pub pos: nat,
    pub state: NfaState,
    /// How many fields have been parsed.
    pub fields: nat,
}

impl Cursor {
    /// Where the run for one record begins.
    pub open spec fn start() -> Cursor {
        Cursor { pos: 0, state: NfaState::StartRecord, fields: 0 }
    }

    /// The place that a transition to `state` at `pos` leads to.
    pub open spec fn moved(self, pos: nat, state: NfaState) -> Cursor {
        Cursor {
            pos,
            state,
            fields: if state.ends_field() {
                self.fields + 1
            } else {
                self.fields
            },
        }
    }
}

impl ParserConfig {
    /// The configuration that `default` gives.
    pub open spec fn standard() -> ParserConfig {
        ParserConfig {
            delimiter: COMMA,
            term: Terminator::CRLF,
            quote: QUOTE,
            escape: None,
            double_quote: true,
            comment: None,
            quoting: true,
            num_fields: 8,
            find_a_record_end_max_tries: 5,
            find_a_record_end_required_good_scans: 3,
        }
    }

    /// Whether `c` is a quote.
    pub open spec fn is_quote(self, c: u8) -> bool {
        self.quoting && c == self.quote
    }

    /// Whether `c` is an escape.
    pub open spec fn is_escape(self, c: u8) -> bool {
        self.quoting && self.escape == Some(c)
    }

    /// The bytes at which a scan stops: outside of quotes the delimiter, the quote and
    /// the terminators, in quotes the quote and the escape, in a comment the line
    /// feed, and those at which `scan_action` stops in any case.
    pub open spec fn stops(self, scan_action: ScanAction) -> Set<u8> {
        match scan_action {
            ScanAction::ScanUnquoted => Set::new(
                |b: u8|
                    scan_action.targets().contains(b) || b == self.delimiter || b == self.quote
                        || self.term.terminates(b),
            ),
            ScanAction::ScanQuoted => Set::new(
                |b: u8|
                    scan_action.targets().contains(b) || b == self.quote || self.escape == Some(b),
            ),
            _ => scan_action.targets(),
        }
    }

    /// The state after `c` in a field, outside of quotes.
    pub open spec fn in_field(self, c: u8) -> NfaState {
        if c == self.delimiter {
            NfaState::EndFieldDelim
        } else if self.term.terminates(c) {
            NfaState::EndFieldTerm
        } else {
            NfaState::InField
        }
    }

    /// The state that follows `state` at the byte `c`.
    pub open spec fn next_state(self, state: NfaState, c: u8) -> NfaState {
        match state {
            NfaState::StartRecord => if self.term.terminates(c) {
                NfaState::StartRecord
            } else if self.comment == Some(c) {
                NfaState::InComment
            } else {
                NfaState::StartField
            },
            NfaState::StartField => if self.is_quote(c) {
                NfaState::InQuotedField
            } else {
                self.in_field(c)
            },
            NfaState::InField => self.in_field(c),
            NfaState::InQuotedField => if self.is_quote(c) {
                NfaState::InDoubleEscapedQuote
            } else if self.is_escape(c) {
                NfaState::InEscapedQuote
            } else {
                NfaState::InQuotedField
            },
            NfaState::InEscapedQuote => NfaState::InQuotedField,
            NfaState::InDoubleEscapedQuote => if self.double_quote && self.is_quote(c) {
                NfaState::InQuotedField
            } else {
                self.in_field(c)
            },
            NfaState::InComment => if c == LF {
                NfaState::StartRecord
            } else {
                NfaState::InComment
            },
            NfaState::EndFieldDelim => NfaState::StartField,
            NfaState::EndFieldTerm => NfaState::InRecordTerm,
            NfaState::InRecordTerm => if self.term == Terminator::CRLF && c == CR {
                NfaState::CRLF
            } else {
                NfaState::EndRecord
            },
            NfaState::EndRecord | NfaState::CRLF => NfaState::StartRecord,
        }
    }
}

/// What the transition from `state` to `next` does with the byte `c`: the bytes of
/// a field are copied; an empty transition leads to a field, to its end or on
/// from the end of a record; the rest of the input is discarded.
pub open spec fn action_of(state: NfaState, next: NfaState, c: u8) -> NfaAction {
    match next {
        NfaState::InField => NfaAction::CopyToOutput,
        NfaState::InQuotedField => if state == NfaState::StartField {
            NfaAction::Discard
        } else {
            NfaAction::CopyToOutput
        },
        NfaState::StartField | NfaState::EndFieldTerm | NfaState::InRecordTerm => NfaAction::Epsilon,
        NfaState::StartRecord => if state == NfaState::EndRecord || (state == NfaState::CRLF && c
            != LF) {
            NfaAction::Epsilon
        } else {
            NfaAction::Discard
        },
        _ => NfaAction::Discard,
    }
}

/// How far the position moves with the transition from `state` to `next`.
pub open spec fn scan_of(state: NfaState, next: NfaState) -> ScanAction {
    match next {
        NfaState::InField | NfaState::EndFieldDelim => ScanAction::ScanUnquoted,
        NfaState::InQuotedField | NfaState::InEscapedQuote => ScanAction::ScanQuoted,
        NfaState::InComment => ScanAction::ScanComment,
        NfaState::InDoubleEscapedQuote | NfaState::CRLF => ScanAction::AdvanceOne,
        NfaState::StartRecord => if state.ends_record() {
            ScanAction::NoScan
        } else {
            ScanAction::ScanUnquoted
        },
        _ => ScanAction::NoScan,
    }
}

impl Nfa {
    /// The transition from `state` at the byte `c`: the state that follows, what
    /// becomes of `c`, and how far the position moves.
    pub fn transition_nfa(&self, state: NfaState, c: u8) -> (r: (NfaState, NfaAction, ScanAction))
        ensures
            r.0 == self.config.next_state(state, c),
            r.1 == action_of(state, r.0, c),
            r.2 == scan_of(state, r.0),
    {
        match state {
            NfaState::StartRecord => {
                if self.config.term.equals(c) {
                    (NfaState::StartRecord, NfaAction::Discard, ScanAction::ScanUnquoted)
                } else if self.config.comment == Some(c) {
                    (NfaState::InComment, NfaAction::Discard, ScanAction::ScanComment)
                } else {
                    (NfaState::StartField, NfaAction::Epsilon, ScanAction::NoScan)
                }
            },
            NfaState::EndRecord => (NfaState::StartRecord, NfaAction::Epsilon, ScanAction::NoScan),
            NfaState::StartField => {
                if self.config.quoting && self.config.quote == c {
                    (NfaState::InQuotedField, NfaAction::Discard, ScanAction::ScanQuoted)
                } else if self.config.delimiter == c {
                    (NfaState::EndFieldDelim, NfaAction::Discard, ScanAction::ScanUnquoted)
                } else if self.config.term.equals(c) {
                    (NfaState::EndFieldTerm, NfaAction::Epsilon, ScanAction::NoScan)
                } else {
                    (NfaState::InField, NfaAction::CopyToOutput, ScanAction::ScanUnquoted)
                }
            },
            NfaState::EndFieldDelim => (
                NfaState::StartField,
                NfaAction::Epsilon,
                ScanAction::NoScan,
            ),
            NfaState::EndFieldTerm => (
                NfaState::InRecordTerm,
                NfaAction::Epsilon,
                ScanAction::NoScan,
            ),
            NfaState::InField => {
                if self.config.delimiter == c {
                    (NfaState::EndFieldDelim, NfaAction::Discard, ScanAction::ScanUnquoted)
                } else if self.config.term.equals(c) {
                    (NfaState::EndFieldTerm, NfaAction::Epsilon, ScanAction::NoScan)
                } else {
                    (NfaState::InField, NfaAction::CopyToOutput, ScanAction::ScanUnquoted)
                }
            },
            NfaState::InQuotedField => {
                if self.config.quoting && self.config.quote == c {
                    (NfaState::InDoubleEscapedQuote, NfaAction::Discard, ScanAction::AdvanceOne)
                } else if self.config.quoting && self.config.escape == Some(c) {
                    (NfaState::InEscapedQuote, NfaAction::Discard, ScanAction::ScanQuoted)
                } else {
                    (NfaState::InQuotedField, NfaAction::CopyToOutput, ScanAction::ScanQuoted)
                }
            },
            NfaState::InEscapedQuote => (
                NfaState::InQuotedField,
                NfaAction::CopyToOutput,
                ScanAction::ScanQuoted,
            ),
            NfaState::InDoubleEscapedQuote => {
                if self.config.quoting && self.config.double_quote && self.config.quote == c {
                    (NfaState::InQuotedField, NfaAction::CopyToOutput, ScanAction::ScanQuoted)
                } else if self.config.delimiter == c {
                    (NfaState::EndFieldDelim, NfaAction::Discard, ScanAction::ScanUnquoted)
                } else if self.config.term.equals(c) {
                    (NfaState::EndFieldTerm, NfaAction::Epsilon, ScanAction::NoScan)
                } else {
                    (NfaState::InField, NfaAction::CopyToOutput, ScanAction::ScanUnquoted)
                }
            },
            NfaState::InComment => {
                if LF == c {
                    (NfaState::StartRecord, NfaAction::Discard, ScanAction::ScanUnquoted)
                } else {
                    (NfaState::InComment, NfaAction::Discard, ScanAction::ScanComment)
                }
            },
            NfaState::InRecordTerm => {
                if self.config.term.is_crlf() && CR == c {
                    (NfaState::CRLF, NfaAction::Discard, ScanAction::AdvanceOne)
                } else {
                    (NfaState::EndRecord, NfaAction::Discard, ScanAction::NoScan)
                }
            },
            NfaState::CRLF => {
                if LF == c {
                    (NfaState::StartRecord, NfaAction::Discard, ScanAction::NoScan)
                } else {
                    (NfaState::StartRecord, NfaAction::Epsilon, ScanAction::NoScan)
                }
            },
        }
    }
}

/// The distance that `scan_action` moves on from the start of `buffer`; `None`
/// where it scans and nothing that it scans for follows the first byte.
pub fn scan(scan_action: &ScanAction, buffer: &[u8]) -> (r: Option<Offset>)
    ensures
        match r {
            Some(offset) => scan_action.jump(buffer@, 0, scan_action.targets()) == Some(
                offset.0 as nat,
            ),
            None => scan_action.jump(buffer@, 0, scan_action.targets()) is None,
        },
{
    let rest: &[u8] = if buffer.len() > 0 {
        slice_subrange(buffer, 1, buffer.len())
    } else {
        buffer
    };
    let found: Option<usize> = match scan_action {
        ScanAction::AdvanceOne => return Some(Offset(1)),
        ScanAction::NoScan => return Some(Offset(0)),
        ScanAction::ScanComment => memchr::memchr(LF, rest),
        ScanAction::ScanQuoted => memchr::memchr2(QUOTE, BACKSLASH, rest),
        ScanAction::ScanUnquoted => memchr::memchr3(QUOTE, COMMA, LF, rest),
    };
    proof {
        lemma_first_from(buffer@, 1, scan_action.targets());
        assert(forall|j: int| 0 <= j < rest@.len() ==> rest@[j] == #[trigger] buffer@[j + 1]);
        assert(forall|j: int|
            1 <= j < buffer@.len() ==> #[trigger] buffer@[j] == rest@[j - 1]);
    }
    match found {
        Some(i) => Some(Offset(i + 1)),
        None => None,
    }
}

impl Nfa {
    /// The distance that `scan_action` moves on from the start of `buffer`, for a scan
    /// that stops at the bytes of the configuration too; `None` where it scans and
    /// nothing that it scans for follows the first byte.
    pub fn scan_on(&self, scan_action: &ScanAction, buffer: &[u8]) -> (r: Option<Offset>)
        ensures
            match r {
                Some(offset) => scan_action.jump(buffer@, 0, self.config.stops(*scan_action))
                    == Some(offset.0 as nat),
                None => scan_action.jump(buffer@, 0, self.config.stops(*scan_action)) is None,
            },
    {
        let found = scan(scan_action, buffer);
        let end: usize = match found {
            Some(Offset(n)) => n,
            None => buffer.len(),
        };
        proof {
            lemma_first_from(buffer@, 1, scan_action.targets());
            lemma_first_from(buffer@, 1, self.config.stops(*scan_action));
        }
        if end <= 1 {
            return found;
        }
        let between = slice_subrange(buffer, 1, end);
        assert(forall|j: int| 1 <= j < end ==> #[trigger] buffer@[j] == between@[j - 1]);
        let sooner: Option<usize> = match scan_action {
            ScanAction::ScanUnquoted => {
                let term: u8 = match self.config.term {
                    Terminator::CRLF => CR,
                    Terminator::Any(b) => b,
                };
                memchr::memchr3(self.config.quote, self.config.delimiter, term, between)
            },
            ScanAction::ScanQuoted => {
                let escape: u8 = match self.config.escape {
                    Some(b) => b,
                    None => self.config.quote,
                };
                memchr::memchr2(self.config.quote, escape, between)
            },
            _ => None,
        };
        match sooner {
            Some(i) => {
                assert(between@[i as int] == buffer@[i + 1]);
                Some(Offset(i + 1))
            },
            None => found,
        }
    }
}

impl ParserConfig {
    /// One transition of the run over `input`: the position and the state that
    /// follow. There is none at the end of the input, nor where a scan finds nothing.
    pub open spec fn step(self, input: Seq<u8>, pos: nat, state: NfaState) -> Option<
        (nat, NfaState),
    > {
        if pos >= input.len() {
            None
        } else {
            let next = self.next_state(state, input[pos as int]);
            let scan_action = scan_of(state, next);
            match scan_action.jump(input, pos, self.stops(scan_action)) {
                Some(to) => Some((to, next)),
                None => None,
            }
        }
    }

    /// A transition stays in the input, and moves on unless it says otherwise. Where
    /// it does not move on it leads to the end of the record, or the rank of the
    /// state decreases.
    pub proof fn lemma_step(self, input: Seq<u8>, pos: nat, state: NfaState)
        ensures
            self.step(input, pos, state) matches Some((to, next)) ==> {
                &&& pos < input.len()
                &&& pos <= to <= input.len()
                &&& next == self.next_state(state, input[pos as int])
                &&& to == pos <==> scan_of(state, next) == ScanAction::NoScan
                &&& to == pos ==> next == NfaState::EndRecord || next.rank() < state.rank()
            },
    {
        if pos < input.len() {
            let next = self.next_state(state, input[pos as int]);
            lemma_first_from(input, pos + 1, self.stops(scan_of(state, next)));
        }
    }

    /// The outcome of the run from `at` on, for a record of `num_fields` fields: it
    /// is rejected at the field that is one too many, and at the end of the record
    /// where fields are missing.
    pub open spec fn run(self, input: Seq<u8>, at: Cursor) -> ScanOutcome
        decreases input.len() - at.pos, at.state.rank(),
    {
        proof {
            self.lemma_step(input, at.pos, at.state);
        }
        match self.step(input, at.pos, at.state) {
            None => ScanOutcome::Exhausted,
            Some((to, next)) => {
                let after = at.moved(to, next);
                if next.ends_field() && after.fields > self.num_fields {
                    ScanOutcome::Rejected(to)
                } else if !next.ends_record() {
                    self.run(input, after)
                } else if after.fields < self.num_fields {
                    ScanOutcome::Rejected(to)
                } else {
                    ScanOutcome::Accepted(to)
                }
            },
        }
    }

    /// The outcome of scanning the record at the start of `input`.
    pub open spec fn scan_outcome(self, input: Seq<u8>) -> ScanOutcome {
        self.run(input, Cursor::start())
    }

    /// The outcome of the search that stands at `at`, with `good` scans accepted in
    /// a row and `tries` scans rejected so far.
    ///
    /// An accepted scan moves the search to the end of its record. After a rejected
    /// one it goes on at the next line feed behind the byte at which the scan ended.
    pub open spec fn search(self, buffer: Seq<u8>, at: nat, good: nat, tries: nat) -> SearchOutcome
        decreases
                self.find_a_record_end_max_tries - tries,
                self.find_a_record_end_required_good_scans - good,
    {
        if good >= self.find_a_record_end_required_good_scans {
            SearchOutcome::Found(at)
        } else if tries >= self.find_a_record_end_max_tries {
            SearchOutcome::GaveUp
        } else {
            match self.scan_outcome(buffer.skip(at as int)) {
                ScanOutcome::Accepted(n) => self.search(buffer, at + n, good + 1, tries),
                ScanOutcome::Rejected(n) => match first_from(buffer, at + n + 1, set![LF]) {
                    Some(i) => self.search(buffer, i, 0, tries + 1),
                    None => SearchOutcome::Exhausted,
                },
                ScanOutcome::Exhausted => SearchOutcome::Exhausted,
            }
        }
    }

    /// The outcome of the search for a record end in `buffer`: it starts at the
    /// first line feed.
    pub open spec fn search_outcome(self, buffer: Seq<u8>) -> SearchOutcome {
        match first_from(buffer, 0, set![LF]) {
            Some(i) => self.search(buffer, i, 0, 0),
            None => SearchOutcome::Exhausted,
        }
    }
}

/// Why a scan did not accept a record.
#[derive(Copy, Clone, Debug, PartialEq, Eq, Structural)]
pub enum ScanRecordError {
    /// The record does not have the number of fields that it should have, as
    /// turned out at this offset.
    WrongNumOfFields(Offset),
    /// The input ended before the record did.
    InputExhausted,
}

/// Why no record end was found.
#[derive(Copy, Clone, Debug, PartialEq, Eq, Structural)]
pub enum FindARecordEndError {
    /// The input ended before the search was satisfied.
    InputExhausted,
    /// Too many scans failed.
    ExceededMaxTries,
}

/// The outcome that the result of a scan stands for.
pub open spec fn scan_result(r: Result<Offset, ScanRecordError>) -> ScanOutcome {
    match r {
        Ok(offset) => ScanOutcome::Accepted(offset.0 as nat),
        Err(ScanRecordError::WrongNumOfFields(offset)) => ScanOutcome::Rejected(offset.0 as nat),
        Err(ScanRecordError::InputExhausted) => ScanOutcome::Exhausted,
    }
}

/// The outcome that the result of a search stands for.
pub open spec fn search_result(r: Result<Offset, FindARecordEndError>) -> SearchOutcome {
    match r {
        Ok(offset) => SearchOutcome::Found(offset.0 as nat),
        Err(FindARecordEndError::ExceededMaxTries) => SearchOutcome::GaveUp,
        Err(FindARecordEndError::InputExhausted) => SearchOutcome::Exhausted,
    }
}

/// What recognises records in bytes.
pub trait FiniteAutomata {
    /// The outcome of scanning the record at the start of `input`.
    spec fn scanned(&self, input: Seq<u8>) -> ScanOutcome;

    /// The outcome of the search for a record end in `buffer`.
    spec fn searched(&self, buffer: Seq<u8>) -> SearchOutcome;

    /// Scans the record at the start of `input`, up to its end.
    fn scan_record(&self, input: &[u8]) -> (r: Result<Offset, ScanRecordError>)
        ensures
            scan_result(r) == self.scanned(input@),
    ;

    /// Searches `buffer` for a record end, from anywhere in a record.
    fn find_a_record_end(&self, buffer: &[u8]) -> (r: Result<Offset, FindARecordEndError>)
        ensures
            search_result(r) == self.searched(buffer@),
    ;
}

/// A scan ends in its input.
pub proof fn lemma_run_bounds(config: ParserConfig, input: Seq<u8>, at: Cursor)
    ensures
        match config.run(input, at) {
            ScanOutcome::Accepted(n) => at.pos <= n <= input.len(),
            ScanOutcome::Rejected(n) => at.pos <= n <= input.len(),
            ScanOutcome::Exhausted => true,
        },
    decreases input.len() - at.pos, at.state.rank(),
{
    config.lemma_step(input, at.pos, at.state);
    if let Some((to, next)) = config.step(input, at.pos, at.state) {
        if !next.ends_record() {
            lemma_run_bounds(config, input, at.moved(to, next));
        }
    }
}

impl FiniteAutomata for Nfa {
    open spec fn scanned(&self, input: Seq<u8>) -> ScanOutcome {
        self.config.scan_outcome(input)
    }

    open spec fn searched(&self, buffer: Seq<u8>) -> SearchOutcome {
        self.config.search_outcome(buffer)
    }

    fn scan_record(&self, input: &[u8]) -> (r: Result<Offset, ScanRecordError>) {
        let mut pos: usize = 0;
        let mut state = NfaState::StartRecord;
        let mut fields_count: u32 = 0;
        while pos < input.len()
            invariant
                pos <= input@.len(),
                fields_count <= self.config.num_fields,
                self.config.scan_outcome(input@) == self.config.run(
                    input@,
                    Cursor { pos: pos as nat, state, fields: fields_count as nat },
                ),
            decreases input@.len() - pos, state.rank(),
        {
            let (next, _nfa_action, scan_action) = self.transition_nfa(state, input[pos]);
            proof {
                self.config.lemma_step(input@, pos as nat, state);
                lemma_first_from_shift(
                    input@,
                    pos as nat,
                    1,
                    self.config.stops(scan_action),
                );
            }
            match self.scan_on(&scan_action, slice_subrange(input, pos, input.len())) {
                Some(offset) => {
                    pos = pos + offset.0;
                },
                None => {
                    return Err(ScanRecordError::InputExhausted);
                },
            }
            state = next;

            if state.is_field_final() {
                if fields_count == self.config.num_fields {
                    return Err(ScanRecordError::WrongNumOfFields(Offset(pos)));
                }
                fields_count = fields_count + 1;
                if state != NfaState::EndFieldDelim {
                    if fields_count < self.config.num_fields {
                        return Err(ScanRecordError::WrongNumOfFields(Offset(pos)));
                    }
                    return Ok(Offset(pos));
                }
            }
        }
        Err(ScanRecordError::InputExhausted)
    }

    fn find_a_record_end(&self, buffer: &[u8]) -> (r: Result<Offset, FindARecordEndError>) {
        proof {
            lemma_first_from(buffer@, 0, set![LF]);
        }
        let mut cur_offset: usize = match memchr::memchr(LF, buffer) {
            Some(i) => i,
            None => return Err(FindARecordEndError::InputExhausted),
        };
        let mut num_good_scans: u32 = 0;
        let mut try_count: u32 = 0;
        while num_good_scans < self.config.find_a_record_end_required_good_scans
            invariant
                cur_offset <= buffer@.len(),
                self.config.search_outcome(buffer@) == self.config.search(
                    buffer@,
                    cur_offset as nat,
                    num_good_scans as nat,
                    try_count as nat,
                ),
            decreases
                    self.config.find_a_record_end_max_tries - try_count,
                    self.config.find_a_record_end_required_good_scans - num_good_scans,
        {
            if try_count >= self.config.find_a_record_end_max_tries {
                return Err(FindARecordEndError::ExceededMaxTries);
            }
            let input = slice_subrange(buffer, cur_offset, buffer.len());
            proof {
                lemma_run_bounds(self.config, input@, Cursor::start());
            }
            match self.scan_record(input) {
                Ok(bytes_consumed) => {
                    cur_offset = cur_offset + bytes_consumed.0;
                    num_good_scans = num_good_scans + 1;
                },
                Err(ScanRecordError::WrongNumOfFields(bytes_consumed)) => {
                    cur_offset = cur_offset + bytes_consumed.0;
                    num_good_scans = 0;
                    try_count = try_count + 1;

                    proof {
                        lemma_first_from(buffer@, (cur_offset + 1) as nat, set![LF]);
                    }
                    if cur_offset == buffer.len() {
                        return Err(FindARecordEndError::InputExhausted);
                    }
                    let rest = slice_subrange(buffer, cur_offset + 1, buffer.len());
                    assert(forall|j: int|
                        cur_offset < j < buffer@.len() ==> #[trigger] buffer@[j] == rest@[j
                            - cur_offset - 1]);
                    match memchr::memchr(LF, rest) {
                        Some(i) => {
                            assert(rest@[i as int] == buffer@[cur_offset + 1 + i]);
                            cur_offset = cur_offset + 1 + i;
                        },
                        None => return Err(FindARecordEndError::InputExhausted),
                    }
                },
                Err(ScanRecordError::InputExhausted) => {
                    return Err(FindARecordEndError::InputExhausted);
                },
            }
        }
        Ok(Offset(cur_offset))
    }
}

} // verus!
