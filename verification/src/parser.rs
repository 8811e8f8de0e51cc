//! The parser: a decoder with one character of lookahead, and the scanner
//! of fields and records on top of it.

use vstd::prelude::*;
use vstd::slice::slice_subrange;
use vstd::string::StrSliceExecFns;
use crate::decode::{
    decode_char,
    decode_first,
    decode_stream,
    lemma_decode_encoded,
    lemma_decode_stream_step,
    Decoded,
    Source,
};
use crate::error::{CsvError, Failure};
use crate::grammar::{
    escaped_field,
    field_scan,
    lemma_escaped_field_shrinks,
    lemma_plain_field_shrinks,
    lemma_record_scan_shrinks,
    lemma_record_step_shrinks,
    line_end,
    normalize,
    normalize_all,
    parse_from,
    plain_field,
    record_scan,
    record_step,
    with_char,
    with_field,
    with_token,
    Config,
    FieldEnd,
    FieldScan,
    Flaw,
    RecordScan,
};
use crate::text::{
    all_whitespace,
    leading_whitespace,
    lemma_trim_all_whitespace,
    to_string,
    trimmed,
};
use crate::token::{
    duplicate_all,
    lemma_texts_push,
    lemma_token_views_push,
    texts,
    token_views,
    Token,
    TokenType,
    TokenView,
};

verus! {

/// A parser of CSV text. It owns the bytes of its input, decodes them one
/// character at a time, and keeps the tokens of the records that it has
/// scanned.
#[derive(Debug)]
pub struct CsvParser {
    tokens: Vec<Token>,
    input: Vec<u8>,
    /// The place in `input` after the character in `peek`.
    pos: usize,
    /// The number of fields of the first record, once it has been scanned.
    record_field_count: u64,
    /// The number of the record that was started last, counted from 1.
    line: u64,
    /// The lookahead: the next character of the input, if there is one.
    peek: Option<char>,
    has_header: bool,
    trim_space: bool,
    all_whitespace_empty: bool,
}

/// `scan` with the characters of `front` in front of the field's value.
pub open spec fn with_chars(front: Seq<char>, scan: Result<FieldScan, Flaw>) -> Result<
    FieldScan,
    Flaw,
> {
    match scan {
        Ok(f) => Ok(FieldScan { raw: front + f.raw, end: f.end, rest: f.rest }),
        Err(e) => Err(e),
    }
}

/// One character more in front is one character more at the end of what
/// was in front before.
proof fn lemma_with_chars_push(front: Seq<char>, c: char, scan: Result<FieldScan, Flaw>)
    ensures
        with_chars(front, with_char(c, scan)) == with_chars(front.push(c), scan),
{
    if let Ok(f) = scan {
        assert(front + (seq![c] + f.raw) =~= front.push(c) + f.raw);
    }
}

/// `scan` with the fields of `front` in front of the record's fields.
pub open spec fn with_fields(front: Seq<Seq<char>>, scan: Result<RecordScan, Flaw>) -> Result<
    RecordScan,
    Flaw,
> {
    match scan {
        Ok(r) => Ok(RecordScan { fields: front + r.fields, end: r.end, rest: r.rest }),
        Err(e) => Err(e),
    }
}

/// `tokens` with the tokens of `front` in front.
pub open spec fn with_tokens(front: Seq<TokenView>, tokens: Result<Seq<TokenView>, Failure>) -> Result<
    Seq<TokenView>,
    Failure,
> {
    match tokens {
        Ok(ts) => Ok(front + ts),
        Err(e) => Err(e),
    }
}

impl CsvParser {
    /// The settings of the parser.
    pub closed spec fn config(&self) -> Config {
        Config {
            has_header: self.has_header,
            trim_space: self.trim_space,
            all_whitespace_empty: self.all_whitespace_empty,
        }
    }

    /// The part of the input that has not been pulled yet, decoded: the
    /// character in the lookahead and what follows it.
    pub closed spec fn pending(&self) -> Source {
        let rest = decode_stream(self.input@.skip(self.pos as int));
        match self.peek {
            Some(c) => rest.prepend(c),
            None => rest,
        }
    }

    /// The tokens of the records scanned so far.
    pub closed spec fn emitted(&self) -> Seq<TokenView> {
        token_views(self.tokens@)
    }

    /// The number of fields of the first record; it means nothing before a
    /// record has been scanned.
    pub closed spec fn expected_fields(&self) -> nat {
        self.record_field_count as nat
    }

    /// What a scan of the input that is pending gives: the tokens of its
    /// records, numbered on from the records scanned so far and held to the
    /// number of fields of the first record, or the first failure.
    pub open spec fn remainder(&self) -> Result<Seq<TokenView>, Failure> {
        parse_from(
            self.config(),
            self.pending(),
            self.emitted().len() + 1,
            self.expected_fields(),
        )
    }

    /// The bytes that were decoded, beyond one for each token and one for
    /// the lookahead.
    spec fn slack(&self) -> int {
        self.pos - self.tokens.len() - (if self.peek is Some {
            1int
        } else {
            0int
        })
    }

    /// The invariant of the parser.
    pub closed spec fn wf(&self) -> bool {
        &&& self.pos <= self.input.len()
        &&& self.peek is None ==> !(decode_first(self.input@.skip(self.pos as int)) is Char)
        &&& self.slack() >= 0
        &&& forall|k: int|
            0 <= k < self.tokens.len() ==> {
                &&& (#[trigger] self.tokens[k]).line == k + 1
                &&& self.tokens[k].token_type == TokenType::Record
                &&& self.tokens[k].value.len() == self.record_field_count
            }
    }

    /// The parser is inside a record: a character of the record has been
    /// pulled, and `line` is the number of the record.
    spec fn in_record(&self) -> bool {
        &&& self.wf()
        &&& self.slack() >= 1
        &&& self.line == self.tokens.len() + 1
    }

    /// Nothing but the decoder's state differs between `self` and `before`.
    spec fn same_record_state(&self, before: &CsvParser) -> bool {
        &&& self.tokens == before.tokens
        &&& self.input == before.input
        &&& self.record_field_count == before.record_field_count
        &&& self.line == before.line
        &&& self.has_header == before.has_header
        &&& self.trim_space == before.trim_space
        &&& self.all_whitespace_empty == before.all_whitespace_empty
    }

    /// The tokens of a parser are records, numbered from 1 in their order,
    /// and each has as many fields as the first.
    pub proof fn lemma_tokens_well_formed(&self)
        requires
            self.wf(),
        ensures
            forall|k: int|
                0 <= k < self.emitted().len() ==> {
                    &&& (#[trigger] self.emitted()[k]).line == k + 1
                    &&& self.emitted()[k].kind == TokenType::Record
                    &&& self.emitted()[k].fields.len() == self.expected_fields()
                },
    {
        assert forall|k: int| 0 <= k < self.emitted().len() implies {
            &&& (#[trigger] self.emitted()[k]).line == k + 1
            &&& self.emitted()[k].kind == TokenType::Record
            &&& self.emitted()[k].fields.len() == self.expected_fields()
        } by {
            assert(self.emitted()[k] == self.tokens[k]@);
        }
    }

    /// The lookahead is the first character of what is pending.
    proof fn lemma_peek(&self)
        requires
            self.wf(),
        ensures
            self.pending().peek() == self.peek,
            self.peek is None ==> self.pending().chars.len() == 0,
    {
        lemma_decode_stream_step(self.input@.skip(self.pos as int));
    }

    /// A parser of the text that `bytes` encode, with the default settings.
    pub fn new(bytes: Vec<u8>) -> (parser: Self)
        ensures
            parser.wf(),
            parser.pending() == decode_stream(bytes@),
            parser.emitted() == Seq::<TokenView>::empty(),
            parser.expected_fields() == 0,
            parser.config() == Config::initial(),
    {
        let mut ret = CsvParser {
            tokens: Vec::new(),
            input: bytes,
            pos: 0,
            record_field_count: 0,
            line: 1,
            peek: None,
            has_header: true,
            trim_space: false,
            all_whitespace_empty: false,
        };
        proof {
            assert(ret.input@.skip(0) =~= ret.input@);
            lemma_decode_stream_step(ret.input@);
        }
        // Fill the lookahead. A failure here shows at the first pull.
        match ret.next_char_() {
            Ok(c) => {
                ret.peek = c;
            },
            Err(_) => {},
        }
        assert(ret.emitted() =~= Seq::<TokenView>::empty());
        ret
    }

    /// A parser of `input`, with the default settings.
    pub fn from_string(input: String) -> (parser: Self)
        ensures
            parser.wf(),
            parser.pending() == Source::clean(input@),
            parser.emitted() == Seq::<TokenView>::empty(),
            parser.expected_fields() == 0,
            parser.config() == Config::initial(),
    {
        let bytes = input.as_str().as_bytes_vec();
        proof {
            lemma_decode_encoded(input@);
        }
        CsvParser::new(bytes)
    }

    /// Says whether the first record names the columns. The scanner treats
    /// the first record like any other.
    pub fn with_header(self, flag: bool) -> (parser: Self)
        ensures
            parser.wf() == self.wf(),
            parser.pending() == self.pending(),
            parser.emitted() == self.emitted(),
            parser.expected_fields() == self.expected_fields(),
            parser.config() == (Config { has_header: flag, ..self.config() }),
    {
        let mut parser = self;
        parser.has_header = flag;
        parser
    }

    /// Says whether the whitespace at both ends of every field is stripped.
    pub fn trim_space(self, flag: bool) -> (parser: Self)
        ensures
            parser.wf() == self.wf(),
            parser.pending() == self.pending(),
            parser.emitted() == self.emitted(),
            parser.expected_fields() == self.expected_fields(),
            parser.config() == (Config { trim_space: flag, ..self.config() }),
    {
        let mut parser = self;
        parser.trim_space = flag;
        parser
    }

    /// Says whether a field of whitespace alone is stored as the empty
    /// string.
    pub fn all_whitespace_empty(self, flag: bool) -> (parser: Self)
        ensures
            parser.wf() == self.wf(),
            parser.pending() == self.pending(),
            parser.emitted() == self.emitted(),
            parser.expected_fields() == self.expected_fields(),
            parser.config() == (Config { all_whitespace_empty: flag, ..self.config() }),
    {
        let mut parser = self;
        parser.all_whitespace_empty = flag;
        parser
    }

    /// Decodes the character at `pos` and moves `pos` behind it. At the end
    /// of the input, and before a sequence that the end cuts short, there is
    /// no character; before a sequence that is not well-formed, the call
    /// fails. `pos` moves only behind a character.
    fn next_char_(&mut self) -> (r: Result<Option<char>, CsvError>)
        requires
            old(self).pos <= old(self).input.len(),
        ensures
            final(self).same_record_state(old(self)),
            final(self).peek == old(self).peek,
            match decode_first(old(self).input@.skip(old(self).pos as int)) {
                Decoded::Char { c, width } => r == Ok::<Option<char>, CsvError>(Some(c))
                    && final(self).pos == old(self).pos + width,
                Decoded::InvalidSequence => r == Err::<Option<char>, CsvError>(
                    CsvError::InvalidEncoding,
                ) && final(self).pos == old(self).pos,
                _ => r == Ok::<Option<char>, CsvError>(None) && final(self).pos == old(self).pos,
            },
    {
        let rest = slice_subrange(self.input.as_slice(), self.pos, self.input.len());
        proof {
            assert(rest@ =~= self.input@.skip(self.pos as int));
            lemma_decode_stream_step(rest@);
        }
        match decode_char(rest) {
            Decoded::Char { c, width } => {
                self.pos = self.pos + width;
                Ok(Some(c))
            },
            Decoded::InvalidSequence => Err(CsvError::InvalidEncoding),
            _ => Ok(None),
        }
    }

    /// Pulls one character: hands out the lookahead and refills it. Fails,
    /// and changes nothing, where the bytes behind the lookahead are not
    /// well-formed.
    fn next_char(&mut self) -> (r: Result<Option<char>, CsvError>)
        requires
            old(self).wf(),
        ensures
            final(self).wf(),
            final(self).same_record_state(old(self)),
            final(self).slack() >= old(self).slack(),
            old(self).pending().blocked() ==> r == Err::<Option<char>, CsvError>(
                CsvError::InvalidEncoding,
            ) && *final(self) == *old(self),
            !old(self).pending().blocked() ==> r == Ok::<Option<char>, CsvError>(old(self).peek)
                && final(self).pending() == old(self).pending().advance(),
            r matches Ok(Some(_)) ==> final(self).slack() >= old(self).slack() + 1,
    {
        let ret = self.peek;
        let ghost bytes = self.input@.skip(self.pos as int);
        proof {
            lemma_decode_stream_step(bytes);
            self.lemma_peek();
        }
        match self.next_char_() {
            Ok(c) => {
                self.peek = c;
                proof {
                    if let Decoded::Char { c: decoded, width } = decode_first(bytes) {
                        assert(bytes.skip(width as int) =~= self.input@.skip(self.pos as int));
                    }
                    assert(self.pending().chars =~= old(self).pending().advance().chars);
                }
                Ok(ret)
            },
            Err(err) => Err(err),
        }
    }

    /// Records a finished record as a token. The first record sets the
    /// number of fields; a later record with another number is refused, and
    /// nothing changes.
    fn check_record_end(&mut self, record: Vec<String>) -> (r: Result<(), CsvError>)
        requires
            old(self).in_record(),
        ensures
            final(self).wf(),
            final(self).config() == old(self).config(),
            final(self).pending() == old(self).pending(),
            final(self).line == old(self).line,
            old(self).tokens.len() > 0 && record.len() != old(self).record_field_count ==> r
                == Err::<(), CsvError>(
                CsvError::FieldCountMismatch {
                    expected: old(self).record_field_count,
                    found: record.len() as u64,
                    line: old(self).line,
                },
            ) && *final(self) == *old(self),
            !(old(self).tokens.len() > 0 && record.len() != old(self).record_field_count) ==> r
                is Ok && final(self).emitted() == old(self).emitted().push(
                TokenView {
                    kind: TokenType::Record,
                    fields: texts(record@),
                    line: old(self).line as nat,
                },
            ) && final(self).record_field_count == record.len(),
    {
        let found = record.len() as u64;
        if self.line == 1 {
            self.record_field_count = found;
        } else if found != self.record_field_count {
            return Err(
                CsvError::FieldCountMismatch {
                    expected: self.record_field_count,
                    found,
                    line: self.line,
                },
            );
        }
        let token = Token { token_type: TokenType::Record, value: record, line: self.line };
        proof {
            lemma_token_views_push(self.tokens@, token);
        }
        self.tokens.push(token);
        Ok(())
    }

    /// Takes one character of a field without quotes: `Ok(true)` where the
    /// character, or the end of the stream, ends the field, whose value is
    /// then normalized in `curr`; `Ok(false)` where the character went into
    /// `curr`. A quote is refused.
    fn match_char(&self, c: Option<char>, curr: &mut Vec<char>) -> (r: Result<bool, CsvError>)
        ensures
            match c {
                None => r == Ok::<bool, CsvError>(true) && final(curr)@ == normalize(
                    self.config(),
                    old(curr)@,
                ),
                Some(ch) => if ch == ',' || ch == '\r' || ch == '\n' {
                    r == Ok::<bool, CsvError>(true) && final(curr)@ == normalize(
                        self.config(),
                        old(curr)@,
                    )
                } else if ch == '"' {
                    r == Err::<bool, CsvError>(CsvError::UnexpectedQuote { line: self.line })
                } else {
                    r == Ok::<bool, CsvError>(false) && final(curr)@ == old(curr)@.push(ch)
                },
            },
    {
        match c {
            Some(ch) => {
                if ch == ',' || ch == '\r' || ch == '\n' {
                    self.normalize_field(curr);
                    Ok(true)
                } else if ch == '"' {
                    Err(CsvError::UnexpectedQuote { line: self.line })
                } else {
                    curr.push(ch);
                    Ok(false)
                }
            },
            None => {
                self.normalize_field(curr);
                Ok(true)
            },
        }
    }

    /// Puts in `curr` the value that is stored for the scanned value in it.
    fn normalize_field(&self, curr: &mut Vec<char>)
        ensures
            final(curr)@ == normalize(self.config(), old(curr)@),
    {
        if self.all_whitespace_empty {
            let k = leading_whitespace(curr);
            if k == curr.len() {
                curr.clear();
                return ;
            }
            assert(!all_whitespace(curr@));
        }
        if self.trim_space {
            let t = trimmed(curr);
            *curr = t;
        }
    }

    /// Scans a field that started with a quote, which has been pulled.
    fn parse_escaped(&mut self) -> (r: Result<(String, FieldEnd), CsvError>)
        requires
            old(self).in_record(),
        ensures
            final(self).in_record(),
            final(self).same_record_state(old(self)),
            match escaped_field(old(self).pending()) {
                Ok(f) => r matches Ok((s, end)) && s@ == normalize(old(self).config(), f.raw) && end
                    == f.end && final(self).pending() == f.rest,
                Err(flaw) => r matches Err(e) && e@ == flaw.at(old(self).line as nat),
            },
    {
        let mut curr: Vec<char> = Vec::new();
        let ghost start = self.pending();
        loop
            invariant
                self.in_record(),
                self.same_record_state(old(self)),
                start == old(self).pending(),
                escaped_field(start) == with_chars(curr@, escaped_field(self.pending())),
            decreases self.pending().chars.len(),
        {
            let ghost taken = curr@;
            proof {
                self.lemma_peek();
            }
            let c = match self.next_char() {
                Ok(c) => c,
                Err(e) => {
                    return Err(e);
                },
            };
            proof {
                self.lemma_peek();
            }
            match c {
                None => {
                    return Err(CsvError::UnterminatedQuote { line: self.line });
                },
                Some(c) => {
                    if c != '"' {
                        curr.push(c);
                        proof {
                            lemma_with_chars_push(taken, c, escaped_field(self.pending()));
                        }
                    } else {
                        match self.peek {
                            None => {
                                self.normalize_field(&mut curr);
                                proof {
                                    assert(taken + Seq::<char>::empty() =~= taken);
                                }
                                return Ok((to_string(&curr), FieldEnd::EndOfStream));
                            },
                            Some(p) => {
                                if p == '\r' || p == '\n' {
                                    self.normalize_field(&mut curr);
                                    proof {
                                        assert(taken + Seq::<char>::empty() =~= taken);
                                    }
                                    return Ok((to_string(&curr), FieldEnd::BreakAhead));
                                } else if p == '"' {
                                    match self.next_char() {
                                        Ok(_) => {},
                                        Err(e) => {
                                            return Err(e);
                                        },
                                    }
                                    curr.push('"');
                                    proof {
                                        lemma_with_chars_push(
                                            taken,
                                            '"',
                                            escaped_field(self.pending()),
                                        );
                                    }
                                } else if p == ',' {
                                    match self.next_char() {
                                        Ok(_) => {},
                                        Err(e) => {
                                            return Err(e);
                                        },
                                    }
                                    self.normalize_field(&mut curr);
                                    proof {
                                        assert(taken + Seq::<char>::empty() =~= taken);
                                    }
                                    return Ok((to_string(&curr), FieldEnd::Comma));
                                } else {
                                    return Err(CsvError::UnterminatedQuote { line: self.line });
                                }
                            },
                        }
                    }
                },
            }
        }
    }

    /// Scans a field without quotes from its first character, which has
    /// been pulled.
    fn parse_field(&mut self, first: char) -> (r: Result<(String, FieldEnd), CsvError>)
        requires
            old(self).in_record(),
        ensures
            final(self).in_record(),
            final(self).same_record_state(old(self)),
            match plain_field(Some(first), old(self).pending()) {
                Ok(f) => r matches Ok((s, end)) && s@ == normalize(old(self).config(), f.raw) && end
                    == f.end && final(self).pending() == f.rest,
                Err(flaw) => r matches Err(e) && e@ == flaw.at(old(self).line as nat),
            },
    {
        let mut curr: Vec<char> = Vec::new();
        let mut c: Option<char> = Some(first);
        let ghost start = self.pending();
        loop
            invariant
                self.in_record(),
                self.same_record_state(old(self)),
                start == old(self).pending(),
                c is None ==> self.pending().chars.len() == 0,
                plain_field(Some(first), start) == with_chars(
                    curr@,
                    plain_field(c, self.pending()),
                ),
            decreases
                    self.pending().chars.len(),
                    (if c is Some {
                        1int
                    } else {
                        0int
                    }),
        {
            let ghost taken = curr@;
            let finished = match self.match_char(c, &mut curr) {
                Ok(b) => b,
                Err(e) => {
                    return Err(e);
                },
            };
            if finished {
                let end = match c {
                    Some(',') => FieldEnd::Comma,
                    Some('\r') => FieldEnd::CarriageReturn,
                    Some('\n') => FieldEnd::LineFeed,
                    _ => FieldEnd::EndOfStream,
                };
                proof {
                    assert(taken + Seq::<char>::empty() =~= taken);
                }
                return Ok((to_string(&curr), end));
            }
            proof {
                self.lemma_peek();
            }
            let ghost ch = c->0;
            c = match self.next_char() {
                Ok(c) => c,
                Err(e) => {
                    return Err(e);
                },
            };
            proof {
                self.lemma_peek();
                lemma_with_chars_push(taken, ch, plain_field(c, self.pending()));
            }
        }
    }

    /// Pulls what is left of the line break that ended a record: the break
    /// in the lookahead, and the line feed behind a carriage return.
    fn finish_line(&mut self, end: FieldEnd) -> (r: Result<(), CsvError>)
        requires
            old(self).wf(),
        ensures
            final(self).wf(),
            final(self).same_record_state(old(self)),
            match line_end(end, old(self).pending()) {
                Ok(rest) => r is Ok && final(self).pending() == rest,
                Err(_) => r == Err::<(), CsvError>(CsvError::InvalidEncoding),
            },
    {
        proof {
            self.lemma_peek();
        }
        let after_return = match end {
            FieldEnd::BreakAhead => {
                match self.next_char() {
                    Ok(Some('\r')) => true,
                    Ok(_) => false,
                    Err(e) => {
                        return Err(e);
                    },
                }
            },
            FieldEnd::CarriageReturn => true,
            _ => false,
        };
        proof {
            self.lemma_peek();
        }
        if after_return {
            match self.peek {
                Some('\n') => {
                    match self.next_char() {
                        Ok(_) => {},
                        Err(e) => {
                            return Err(e);
                        },
                    }
                },
                _ => {},
            }
        }
        Ok(())
    }

    /// Scans one record from its first character, which has been pulled,
    /// records it as a token, and pulls the rest of its line break.
    fn parse_record(&mut self, first: char) -> (r: Result<(), CsvError>)
        requires
            old(self).wf(),
            old(self).slack() >= 1,
        ensures
            final(self).wf(),
            final(self).config() == old(self).config(),
            old(self).emitted().is_prefix_of(final(self).emitted()),
            match record_step(
                old(self).config(),
                first,
                old(self).pending(),
                old(self).emitted().len() + 1,
                old(self).expected_fields(),
            ) {
                Ok(step) => r is Ok && final(self).emitted() == old(self).emitted().push(step.token)
                    && final(self).pending() == step.rest && final(self).expected_fields()
                    == step.token.fields.len(),
                Err(failure) => r matches Err(e) && e@ == failure,
            },
    {
        self.line = self.tokens.len() as u64 + 1;
        let mut record: Vec<String> = Vec::new();
        let mut c = first;
        let ghost start = self.pending();
        let ghost mut raws: Seq<Seq<char>> = Seq::empty();
        let end;
        loop
            invariant_except_break
                texts(record@) == normalize_all(self.config(), raws),
                record_scan(first, start) == with_fields(raws, record_scan(c, self.pending())),
            invariant
                self.in_record(),
                self.tokens == old(self).tokens,
                self.input == old(self).input,
                self.record_field_count == old(self).record_field_count,
                self.config() == old(self).config(),
                start == old(self).pending(),
            ensures
                record_scan(first, start) matches Ok(rec) && texts(record@) == normalize_all(
                    self.config(),
                    rec.fields,
                ) && end == rec.end && self.pending() == rec.rest,
            decreases self.pending().chars.len(),
        {
            let ghost before = self.pending();
            proof {
                lemma_plain_field_shrinks(Some(c), before);
                lemma_escaped_field_shrinks(before);
            }
            let scanned = if c == '"' {
                self.parse_escaped()
            } else {
                self.parse_field(c)
            };
            let (field, field_end) = match scanned {
                Ok(pair) => pair,
                Err(e) => {
                    return Err(e);
                },
            };
            let ghost raw = field_scan(c, before)->Ok_0.raw;
            proof {
                lemma_texts_push(record@, field);
                assert(normalize_all(self.config(), raws.push(raw)) =~= normalize_all(
                    self.config(),
                    raws,
                ).push(normalize(self.config(), raw)));
                self.lemma_peek();
            }
            record.push(field);
            let ghost last = Seq::<char>::empty();
            match field_end {
                FieldEnd::Comma => {
                    // The field that follows, by its first character; none
                    // before a line break and at the end of the stream.
                    let following = match self.peek {
                        Some(p) => if p == '\r' || p == '\n' {
                            None
                        } else {
                            Some(p)
                        },
                        None => None,
                    };
                    match following {
                        None => {
                            let empty = String::new();
                            proof {
                                lemma_texts_push(record@, empty);
                                assert(normalize(self.config(), last) =~= last) by {
                                    lemma_trim_all_whitespace(last);
                                }
                                assert(normalize_all(self.config(), raws.push(raw).push(last))
                                    =~= normalize_all(self.config(), raws.push(raw)).push(last));
                                assert(raws + seq![raw, last] =~= raws.push(raw).push(last));
                            }
                            record.push(empty);
                            proof {
                                raws = raws.push(raw).push(last);
                            }
                            end = match self.peek {
                                Some(_) => FieldEnd::BreakAhead,
                                None => FieldEnd::EndOfStream,
                            };
                            break ;
                        },
                        Some(p) => {
                            match self.next_char() {
                                Ok(_) => {},
                                Err(e) => {
                                    return Err(e);
                                },
                            }
                            proof {
                                let next = record_scan(p, self.pending());
                                assert(with_fields(raws, with_field(raw, next)) =~= with_fields(
                                    raws.push(raw),
                                    next,
                                )) by {
                                    if let Ok(r) = next {
                                        assert(raws + (seq![raw] + r.fields) =~= raws.push(raw)
                                            + r.fields);
                                    }
                                }
                                raws = raws.push(raw);
                            }
                            c = p;
                        },
                    }
                },
                _ => {
                    proof {
                        assert(raws + seq![raw] =~= raws.push(raw));
                        raws = raws.push(raw);
                    }
                    end = field_end;
                    break ;
                },
            }
        }
        let ghost rec = record_scan(first, start)->Ok_0;
        proof {
            lemma_record_scan_shrinks(first, start);
            assert(texts(record@).len() == rec.fields.len());
        }
        match self.check_record_end(record) {
            Ok(()) => {},
            Err(e) => {
                return Err(e);
            },
        }
        match self.finish_line(end) {
            Ok(()) => Ok(()),
            Err(e) => Err(e),
        }
    }

    /// Scans what is left of the input, record by record, and returns the
    /// tokens of all the records scanned so far, or the first failure.
    pub fn scan(&mut self) -> (r: Result<Vec<Token>, CsvError>)
        requires
            old(self).wf(),
        ensures
            final(self).wf(),
            final(self).config() == old(self).config(),
            old(self).emitted().is_prefix_of(final(self).emitted()),
            match old(self).remainder() {
                Ok(tokens) => r matches Ok(all) && token_views(all@) == old(self).emitted() + tokens
                    && final(self).emitted() == old(self).emitted() + tokens
                    && final(self).pending() == Source::clean(Seq::empty()),
                Err(failure) => r matches Err(e) && e@ == failure,
            },
            r matches Ok(all) ==> forall|k: int|
                0 <= k < all.len() ==> {
                    &&& (#[trigger] all[k]).line == k + 1
                    &&& all[k].token_type == TokenType::Record
                    &&& all[k].value.len() == all[0].value.len()
                },
    {
        let ghost target = parse_from(
            self.config(),
            self.pending(),
            self.emitted().len() + 1,
            self.expected_fields(),
        );
        let ghost mut done: Seq<TokenView> = Seq::empty();
        proof {
            assert(self.emitted() + done =~= self.emitted());
            assert(with_tokens(done, target) =~= target) by {
                if let Ok(ts) = target {
                    assert(done + ts =~= ts);
                }
            }
        }
        loop
            invariant
                self.wf(),
                self.config() == old(self).config(),
                self.emitted() == old(self).emitted() + done,
                target == parse_from(
                    old(self).config(),
                    old(self).pending(),
                    old(self).emitted().len() + 1,
                    old(self).expected_fields(),
                ),
                target == with_tokens(
                    done,
                    parse_from(
                        self.config(),
                        self.pending(),
                        self.emitted().len() + 1,
                        self.expected_fields(),
                    ),
                ),
            decreases self.pending().chars.len(),
        {
            proof {
                self.lemma_peek();
            }
            match self.next_char() {
                Err(err) => {
                    return Err(err);
                },
                Ok(None) => {
                    proof {
                        assert(done + Seq::<TokenView>::empty() =~= done);
                        assert(self.pending().chars =~= Seq::<char>::empty());
                    }
                    let all = duplicate_all(&self.tokens);
                    proof {
                        self.lemma_tokens_well_formed();
                        assert forall|k: int| 0 <= k < all.len() implies {
                            &&& (#[trigger] all[k]).line == k + 1
                            &&& all[k].token_type == TokenType::Record
                            &&& all[k].value.len() == all[0].value.len()
                        } by {
                            assert(token_views(all@)[k] == all[k]@);
                            assert(token_views(all@)[0] == all[0]@);
                            assert(self.emitted()[k] == all[k]@);
                            assert(self.emitted()[0] == all[0]@);
                        }
                    }
                    return Ok(all);
                },
                Ok(Some(c)) => {
                    let ghost line = self.emitted().len() + 1;
                    let ghost step = record_step(
                        self.config(),
                        c,
                        self.pending(),
                        line as nat,
                        self.expected_fields(),
                    );
                    proof {
                        lemma_record_step_shrinks(
                            self.config(),
                            c,
                            self.pending(),
                            line as nat,
                            self.expected_fields(),
                        );
                    }
                    match self.parse_record(c) {
                        Ok(()) => {
                            proof {
                                let token = step->Ok_0.token;
                                let rest = parse_from(
                                    self.config(),
                                    self.pending(),
                                    self.emitted().len() + 1,
                                    self.expected_fields(),
                                );
                                assert(with_tokens(done, with_token(token, rest)) =~= with_tokens(
                                    done.push(token),
                                    rest,
                                )) by {
                                    if let Ok(ts) = rest {
                                        assert(done + (seq![token] + ts) =~= done.push(token) + ts);
                                    }
                                }
                                assert(old(self).emitted() + done.push(token) =~= (old(
                                    self,
                                ).emitted() + done).push(token));
                                done = done.push(token);
                            }
                        },
                        Err(err) => {
                            return Err(err);
                        },
                    }
                },
            }
        }
    }

    /// The same as `scan`.
    pub fn parse(&mut self) -> (r: Result<Vec<Token>, CsvError>)
        requires
            old(self).wf(),
        ensures
            final(self).wf(),
            final(self).config() == old(self).config(),
            old(self).emitted().is_prefix_of(final(self).emitted()),
            match old(self).remainder() {
                Ok(tokens) => r matches Ok(all) && token_views(all@) == old(self).emitted() + tokens
                    && final(self).emitted() == old(self).emitted() + tokens
                    && final(self).pending() == Source::clean(Seq::empty()),
                Err(failure) => r matches Err(e) && e@ == failure,
            },
            r matches Ok(all) ==> forall|k: int|
                0 <= k < all.len() ==> {
                    &&& (#[trigger] all[k]).line == k + 1
                    &&& all[k].token_type == TokenType::Record
                    &&& all[k].value.len() == all[0].value.len()
                },
    {
        self.scan()
    }
}

} // verus!
