//! What the scanner computes, as functions of the stream of characters.
//!
//! A field is scanned by `plain_field` or `escaped_field`, a record by
//! `record_scan`, and the whole input by `parse_from`. Each function takes
//! the stream as it stands after the characters that were pulled so far, and
//! says what remains of it.

use vstd::prelude::*;
use crate::decode::Source;
use crate::error::Failure;
use crate::text::{all_whitespace, trim};
use crate::token::{TokenType, TokenView};

verus! {

/// The settings of a parser.
pub struct Config {
    /// The first record holds the names of the columns. The scanner does not
    /// read this flag; it is kept for the caller.
    pub has_header: bool,
    /// Strip the whitespace at both ends of every field.
    pub trim_space: bool,
    /// Store a field that holds whitespace alone as the empty string.
    pub all_whitespace_empty: bool,
}

impl Config {
    /// The settings of a new parser.
    pub open spec fn initial() -> Config {
        Config { has_header: true, trim_space: false, all_whitespace_empty: false }
    }
}

/// The value that is stored for a field whose scanned value is `raw`.
pub open spec fn normalize(cfg: Config, raw: Seq<char>) -> Seq<char> {
    if cfg.all_whitespace_empty && all_whitespace(raw) {
        Seq::empty()
    } else if cfg.trim_space {
        trim(raw)
    } else {
        raw
    }
}

/// The stored values of the fields of a record.
pub open spec fn normalize_all(cfg: Config, fields: Seq<Seq<char>>) -> Seq<Seq<char>> {
    fields.map_values(|raw: Seq<char>| normalize(cfg, raw))
}

/// A carriage return or a line feed.
pub open spec fn is_line_break(c: char) -> bool {
    c == '\r' || c == '\n'
}

/// What is wrong with the input, without the place.
pub enum Flaw {
    InvalidEncoding,
    UnexpectedQuote,
    UnterminatedQuote,
}

impl Flaw {
    /// The failure that this flaw makes in the record at `line`.
    pub open spec fn at(self, line: nat) -> Failure {
        match self {
            Flaw::InvalidEncoding => Failure::InvalidEncoding,
            Flaw::UnexpectedQuote => Failure::UnexpectedQuote { line },
            Flaw::UnterminatedQuote => Failure::UnterminatedQuote { line },
        }
    }
}

/// How a field, or a record, came to its end.
#[derive(Debug, Clone, Copy, PartialEq, Eq)]
pub enum FieldEnd {
    /// A comma was pulled.
    Comma,
    /// A carriage return was pulled.
    CarriageReturn,
    /// A line feed was pulled.
    LineFeed,
    /// A line break stands in the lookahead and was not pulled.
    BreakAhead,
    /// The stream is at its end.
    EndOfStream,
}

/// One scanned field: its value before normalization, how it ended, and the
/// stream after it.
#[verifier::ext_equal]
pub struct FieldScan {
    pub raw: Seq<char>,
    pub end: FieldEnd,
    pub rest: Source,
}

/// One scanned record: the values of its fields before normalization, how it
/// ended, and the stream after it.
#[verifier::ext_equal]
pub struct RecordScan {
    pub fields: Seq<Seq<char>>,
    pub end: FieldEnd,
    pub rest: Source,
}

/// `scan` with `c` in front of the field's value.
pub open spec fn with_char(c: char, scan: Result<FieldScan, Flaw>) -> Result<FieldScan, Flaw> {
    match scan {
        Ok(f) => Ok(FieldScan { raw: seq![c] + f.raw, end: f.end, rest: f.rest }),
        Err(e) => Err(e),
    }
}

/// `scan` with `raw` in front of the record's fields.
pub open spec fn with_field(raw: Seq<char>, scan: Result<RecordScan, Flaw>) -> Result<
    RecordScan,
    Flaw,
> {
    match scan {
        Ok(r) => Ok(RecordScan { fields: seq![raw] + r.fields, end: r.end, rest: r.rest }),
        Err(e) => Err(e),
    }
}

/// A field that does not start with a quote. `c` is the character that was
/// pulled last (`None` at the end of the stream) and `rest` the stream after
/// it. The field runs up to the first comma, line break or end of stream; a
/// quote inside it is a flaw.
pub open spec fn plain_field(c: Option<char>, rest: Source) -> Result<FieldScan, Flaw>
    decreases rest.chars.len(), (if c is Some { 1int } else { 0int }),
{
    match c {
        None => Ok(FieldScan { raw: Seq::empty(), end: FieldEnd::EndOfStream, rest }),
        Some(ch) => if ch == ',' {
            Ok(FieldScan { raw: Seq::empty(), end: FieldEnd::Comma, rest })
        } else if ch == '\r' {
            Ok(FieldScan { raw: Seq::empty(), end: FieldEnd::CarriageReturn, rest })
        } else if ch == '\n' {
            Ok(FieldScan { raw: Seq::empty(), end: FieldEnd::LineFeed, rest })
        } else if ch == '"' {
            Err(Flaw::UnexpectedQuote)
        } else if rest.blocked() {
            Err(Flaw::InvalidEncoding)
        } else {
            with_char(ch, plain_field(rest.peek(), rest.advance()))
        },
    }
}

/// A field that started with a quote; `src` is the stream after that quote.
/// Every character up to the closing quote belongs to the field, a pair of
/// quotes standing for one. The closing quote is followed by a comma, which
/// is pulled, or by a line break or the end of the stream, which are not.
pub open spec fn escaped_field(src: Source) -> Result<FieldScan, Flaw>
    decreases src.chars.len(),
{
    if src.blocked() {
        Err(Flaw::InvalidEncoding)
    } else if src.chars.len() == 0 {
        Err(Flaw::UnterminatedQuote)
    } else {
        let c = src.chars[0];
        let rest = src.advance();
        if c != '"' {
            with_char(c, escaped_field(rest))
        } else {
            match rest.peek() {
                None => Ok(FieldScan { raw: Seq::empty(), end: FieldEnd::EndOfStream, rest }),
                Some(p) => if is_line_break(p) {
                    Ok(FieldScan { raw: Seq::empty(), end: FieldEnd::BreakAhead, rest })
                } else if p != '"' && p != ',' {
                    Err(Flaw::UnterminatedQuote)
                } else if rest.blocked() {
                    Err(Flaw::InvalidEncoding)
                } else if p == ',' {
                    Ok(FieldScan { raw: Seq::empty(), end: FieldEnd::Comma, rest: rest.advance() })
                } else {
                    with_char('"', escaped_field(rest.advance()))
                },
            }
        }
    }
}

/// The field that starts with the character `first`, which was pulled from
/// the stream and left `src`.
pub open spec fn field_scan(first: char, src: Source) -> Result<FieldScan, Flaw> {
    if first == '"' {
        escaped_field(src)
    } else {
        plain_field(Some(first), src)
    }
}

/// A scanned field leaves no more of the stream than it found.
pub proof fn lemma_plain_field_shrinks(c: Option<char>, rest: Source)
    ensures
        plain_field(c, rest) matches Ok(f) ==> f.rest.chars.len() <= rest.chars.len()
            && f.rest.poisoned == rest.poisoned,
    decreases rest.chars.len(), (if c is Some { 1int } else { 0int }),
{
    if let Some(ch) = c {
        if ch != ',' && ch != '\r' && ch != '\n' && ch != '"' && !rest.blocked() {
            lemma_plain_field_shrinks(rest.peek(), rest.advance());
        }
    }
}

/// A scanned field leaves no more of the stream than it found.
pub proof fn lemma_escaped_field_shrinks(src: Source)
    ensures
        escaped_field(src) matches Ok(f) ==> f.rest.chars.len() < src.chars.len()
            && f.rest.poisoned == src.poisoned,
    decreases src.chars.len(),
{
    if !src.blocked() && src.chars.len() > 0 {
        let rest = src.advance();
        if src.chars[0] != '"' {
            lemma_escaped_field_shrinks(rest);
        } else if rest.peek() == Some('"') && !rest.blocked() {
            lemma_escaped_field_shrinks(rest.advance());
        }
    }
}

/// A scanned field leaves no more of the stream than it found.
pub proof fn lemma_field_scan_shrinks(first: char, src: Source)
    ensures
        field_scan(first, src) matches Ok(f) ==> f.rest.chars.len() <= src.chars.len()
            && f.rest.poisoned == src.poisoned,
{
    lemma_plain_field_shrinks(Some(first), src);
    lemma_escaped_field_shrinks(src);
}

/// The record that starts with the character `first`, which was pulled from
/// the stream and left `src`. After a comma the next field follows, unless
/// the lookahead holds a line break or nothing: then the record ends with
/// one more, empty, field.
pub open spec fn record_scan(first: char, src: Source) -> Result<RecordScan, Flaw>
    decreases src.chars.len(),
{
    match field_scan(first, src) {
        Err(e) => Err(e),
        Ok(f) => if f.end != FieldEnd::Comma {
            Ok(RecordScan { fields: seq![f.raw], end: f.end, rest: f.rest })
        } else {
            match f.rest.peek() {
                None => Ok(
                    RecordScan {
                        fields: seq![f.raw, Seq::empty()],
                        end: FieldEnd::EndOfStream,
                        rest: f.rest,
                    },
                ),
                Some(c) => if is_line_break(c) {
                    Ok(
                        RecordScan {
                            fields: seq![f.raw, Seq::empty()],
                            end: FieldEnd::BreakAhead,
                            rest: f.rest,
                        },
                    )
                } else if f.rest.blocked() {
                    Err(Flaw::InvalidEncoding)
                } else {
                    proof {
                        lemma_field_scan_shrinks(first, src);
                    }
                    with_field(f.raw, record_scan(c, f.rest.advance()))
                },
            }
        },
    }
}

/// A scanned record has a field, and leaves no more of the stream than it
/// found.
pub proof fn lemma_record_scan_shrinks(first: char, src: Source)
    ensures
        record_scan(first, src) matches Ok(r) ==> r.rest.chars.len() <= src.chars.len()
            && r.rest.poisoned == src.poisoned && r.fields.len() >= 1 && r.end != FieldEnd::Comma,
    decreases src.chars.len(),
{
    lemma_field_scan_shrinks(first, src);
    if let Ok(f) = field_scan(first, src) {
        if f.end == FieldEnd::Comma {
            if let Some(c) = f.rest.peek() {
                if !is_line_break(c) && !f.rest.blocked() {
                    lemma_record_scan_shrinks(c, f.rest.advance());
                }
            }
        }
    }
}

/// The stream after a carriage return was pulled: a line feed that follows
/// it belongs to the same line break and is pulled too.
pub open spec fn after_carriage_return(src: Source) -> Result<Source, Flaw> {
    if src.peek() == Some('\n') {
        if src.blocked() {
            Err(Flaw::InvalidEncoding)
        } else {
            Ok(src.advance())
        }
    } else {
        Ok(src)
    }
}

/// The stream after the line break that ends a record has been pulled
/// whole: a line feed, a carriage return, or a carriage return and a line
/// feed. `end` says how much of it the record has pulled already.
pub open spec fn line_end(end: FieldEnd, src: Source) -> Result<Source, Flaw> {
    match end {
        FieldEnd::BreakAhead => if src.blocked() {
            Err(Flaw::InvalidEncoding)
        } else if src.peek() == Some('\r') {
            after_carriage_return(src.advance())
        } else {
            Ok(src.advance())
        },
        FieldEnd::CarriageReturn => after_carriage_return(src),
        _ => Ok(src),
    }
}

/// The end of a line leaves no more of the stream than it found.
pub proof fn lemma_line_end_shrinks(end: FieldEnd, src: Source)
    ensures
        line_end(end, src) matches Ok(rest) ==> rest.chars.len() <= src.chars.len()
            && rest.poisoned == src.poisoned,
{
}

/// The tokens of `records`, where the first of them stands at `line`.
pub open spec fn tokens_of(cfg: Config, records: Seq<Seq<Seq<char>>>, line: nat) -> Seq<TokenView> {
    Seq::new(
        records.len(),
        |i: int|
            TokenView {
                kind: TokenType::Record,
                fields: normalize_all(cfg, records[i]),
                line: (line + i) as nat,
            },
    )
}

/// One record made into a token, and the stream after its line.
#[verifier::ext_equal]
pub struct Step {
    pub token: TokenView,
    pub rest: Source,
}

/// `tokens` with `token` in front.
pub open spec fn with_token(token: TokenView, tokens: Result<Seq<TokenView>, Failure>) -> Result<
    Seq<TokenView>,
    Failure,
> {
    match tokens {
        Ok(ts) => Ok(seq![token] + ts),
        Err(e) => Err(e),
    }
}

/// The record at `line`, which starts with the character `first`, pulled
/// from the stream that is now `src`. From the second line on the record
/// must have `expected` fields. The record is counted before the rest of its
/// line break is pulled.
pub open spec fn record_step(
    cfg: Config,
    first: char,
    src: Source,
    line: nat,
    expected: nat,
) -> Result<Step, Failure> {
    match record_scan(first, src) {
        Err(flaw) => Err(flaw.at(line)),
        Ok(r) => if line != 1 && r.fields.len() != expected {
            Err(Failure::FieldCountMismatch { expected, found: r.fields.len(), line })
        } else {
            match line_end(r.end, r.rest) {
                Err(flaw) => Err(flaw.at(line)),
                Ok(rest) => Ok(
                    Step {
                        token: TokenView {
                            kind: TokenType::Record,
                            fields: normalize_all(cfg, r.fields),
                            line,
                        },
                        rest,
                    },
                ),
            }
        },
    }
}

/// A record leaves no more of the stream than it found.
pub proof fn lemma_record_step_shrinks(
    cfg: Config,
    first: char,
    src: Source,
    line: nat,
    expected: nat,
)
    ensures
        record_step(cfg, first, src, line, expected) matches Ok(step) ==> step.rest.chars.len()
            <= src.chars.len() && step.rest.poisoned == src.poisoned,
{
    lemma_record_scan_shrinks(first, src);
    if let Ok(r) = record_scan(first, src) {
        lemma_line_end_shrinks(r.end, r.rest);
    }
}

/// The tokens of the records of `src`, or the first failure. `line` is the
/// number of the first record of `src`; from the second line on, `expected`
/// is the number of fields that every record must have.
pub open spec fn parse_from(cfg: Config, src: Source, line: nat, expected: nat) -> Result<
    Seq<TokenView>,
    Failure,
>
    decreases src.chars.len(),
{
    if src.blocked() {
        Err(Failure::InvalidEncoding)
    } else if src.chars.len() == 0 {
        Ok(Seq::empty())
    } else {
        match record_step(cfg, src.chars[0], src.advance(), line, expected) {
            Err(e) => Err(e),
            Ok(step) => {
                proof {
                    lemma_record_step_shrinks(cfg, src.chars[0], src.advance(), line, expected);
                }
                with_token(
                    step.token,
                    parse_from(cfg, step.rest, line + 1, step.token.fields.len()),
                )
            },
        }
    }
}

/// The tokens of the records of `src`, or the first failure.
pub open spec fn parse(cfg: Config, src: Source) -> Result<Seq<TokenView>, Failure> {
    parse_from(cfg, src, 1, 0)
}

/// The tokens of the records of a text, or the first failure.
pub open spec fn parse_text(cfg: Config, text: Seq<char>) -> Result<Seq<TokenView>, Failure> {
    parse(cfg, Source::clean(text))
}

} // verus!
