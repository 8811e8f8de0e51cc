//! Records written out as text, and the law that parsing reads them back.
//!
//! Nothing here runs: the functions that write are specifications, there to
//! state what the parser does to text that was written by the rules.

use vstd::prelude::*;
use crate::decode::Source;
use crate::error::Failure;
use crate::grammar::{
    escaped_field,
    field_scan,
    is_line_break,
    line_end,
    normalize_all,
    parse_from,
    parse_text,
    plain_field,
    record_scan,
    record_step,
    tokens_of,
    with_field,
    Config,
    FieldEnd,
    FieldScan,
    Flaw,
    Step,
};
use crate::token::{TokenType, TokenView};

verus! {

/// A character that a field can hold only between quotes.
pub open spec fn is_special(c: char) -> bool {
    c == ',' || c == '"' || c == '\r' || c == '\n'
}

/// A field that holds no comma, quote or line break.
pub open spec fn is_plain(field: Seq<char>) -> bool {
    forall|i: int| 0 <= i < field.len() ==> !is_special(#[trigger] field[i])
}

/// `field` with every quote doubled.
pub open spec fn doubled(field: Seq<char>) -> Seq<char>
    decreases field.len(),
{
    if field.len() == 0 {
        Seq::empty()
    } else if field[0] == '"' {
        seq!['"', '"'] + doubled(field.skip(1))
    } else {
        seq![field[0]] + doubled(field.skip(1))
    }
}

/// `field` between quotes, with the quotes inside it doubled.
pub open spec fn quoted(field: Seq<char>) -> Seq<char> {
    seq!['"'] + doubled(field) + seq!['"']
}

/// `field` as it is written: between quotes where it is not plain, or where
/// every field is quoted; as it stands otherwise.
pub open spec fn render_field(field: Seq<char>, quote_all: bool) -> Seq<char> {
    if quote_all || !is_plain(field) {
        quoted(field)
    } else {
        field
    }
}

/// The fields of a record as they are written, with commas between them.
pub open spec fn render_record(fields: Seq<Seq<char>>, quote_all: bool) -> Seq<char>
    decreases fields.len(),
{
    if fields.len() == 0 {
        Seq::empty()
    } else if fields.len() == 1 {
        render_field(fields[0], quote_all)
    } else {
        render_field(fields[0], quote_all) + seq![','] + render_record(fields.skip(1), quote_all)
    }
}

/// A line feed, a carriage return, or a carriage return and a line feed.
pub open spec fn is_line_break_text(text: Seq<char>) -> bool {
    text == seq!['\n'] || text == seq!['\r'] || text == seq!['\r', '\n']
}

/// The records as they are written, with `line_break` between them, and
/// also behind the last of them where `terminated` is set.
pub open spec fn render(
    records: Seq<Seq<Seq<char>>>,
    line_break: Seq<char>,
    quote_all: bool,
    terminated: bool,
) -> Seq<char>
    decreases records.len(),
{
    if records.len() == 0 {
        Seq::empty()
    } else if records.len() == 1 {
        render_record(records[0], quote_all) + (if terminated {
            line_break
        } else {
            Seq::empty()
        })
    } else {
        render_record(records[0], quote_all) + line_break + render(
            records.skip(1),
            line_break,
            quote_all,
            terminated,
        )
    }
}

/// The first character of a text, if it has one.
pub open spec fn head(text: Seq<char>) -> Option<char> {
    if text.len() > 0 {
        Some(text[0])
    } else {
        None
    }
}

/// The text behind its first character.
pub open spec fn tail(text: Seq<char>) -> Seq<char> {
    if text.len() > 0 {
        text.skip(1)
    } else {
        text
    }
}

/// The text is empty or starts with a comma or a line break.
pub open spec fn delimited(text: Seq<char>) -> bool {
    text.len() == 0 || text[0] == ',' || is_line_break(text[0])
}

/// The text is empty or starts with a line break.
pub open spec fn line_delimited(text: Seq<char>) -> bool {
    text.len() == 0 || is_line_break(text[0])
}

/// The text behind the line break that it starts with, if it starts with
/// one.
pub open spec fn strip_break(text: Seq<char>) -> Seq<char> {
    if text.len() == 0 {
        text
    } else if text[0] == '\r' && text.len() > 1 && text[1] == '\n' {
        text.skip(2)
    } else if is_line_break(text[0]) {
        text.skip(1)
    } else {
        text
    }
}

/// How a plain field ends that is followed by `text`.
pub open spec fn plain_end(text: Seq<char>) -> FieldEnd {
    if text.len() == 0 {
        FieldEnd::EndOfStream
    } else if text[0] == ',' {
        FieldEnd::Comma
    } else if text[0] == '\r' {
        FieldEnd::CarriageReturn
    } else {
        FieldEnd::LineFeed
    }
}

/// How a quoted field ends that is followed by `text`.
pub open spec fn quoted_end(text: Seq<char>) -> FieldEnd {
    if text.len() == 0 {
        FieldEnd::EndOfStream
    } else if text[0] == ',' {
        FieldEnd::Comma
    } else {
        FieldEnd::BreakAhead
    }
}

/// What a quoted field leaves of the `text` that follows it.
pub open spec fn quoted_rest(text: Seq<char>) -> Seq<char> {
    if text.len() > 0 && text[0] == ',' {
        text.skip(1)
    } else {
        text
    }
}

proof fn lemma_clean(text: Seq<char>)
    ensures
        !Source::clean(text).blocked(),
        Source::clean(text).peek() == head(text),
        Source::clean(text).advance() == Source::clean(tail(text)),
{
}

/// A plain field that is followed by a delimiter, or by nothing, scans to
/// itself.
pub proof fn lemma_plain_field_round_trip(field: Seq<char>, text: Seq<char>)
    requires
        is_plain(field),
        delimited(text),
    ensures
        plain_field(head(field + text), Source::clean(tail(field + text))) == Ok::<
            FieldScan,
            Flaw,
        >(FieldScan { raw: field, end: plain_end(text), rest: Source::clean(tail(text)) }),
    decreases field.len(),
{
    let s = field + text;
    if field.len() == 0 {
        assert(s =~= text);
        assert(field =~= Seq::<char>::empty());
    } else {
        let c = field[0];
        let s1 = s.skip(1);
        assert(s[0] == c);
        assert(!is_special(c));
        assert(s1 =~= field.skip(1) + text);
        assert forall|i: int| 0 <= i < field.skip(1).len() implies !is_special(
            #[trigger] field.skip(1)[i],
        ) by {
            assert(field.skip(1)[i] == field[i + 1]);
        }
        lemma_plain_field_round_trip(field.skip(1), text);
        lemma_clean(s1);
        assert(seq![c] + field.skip(1) =~= field);
    }
}

/// A field between quotes, with its quotes doubled, that is followed by a
/// delimiter, or by nothing, scans to what it held.
pub proof fn lemma_quoted_field_round_trip(field: Seq<char>, text: Seq<char>)
    requires
        delimited(text),
    ensures
        escaped_field(Source::clean(doubled(field) + seq!['"'] + text)) == Ok::<FieldScan, Flaw>(
            FieldScan {
                raw: field,
                end: quoted_end(text),
                rest: Source::clean(quoted_rest(text)),
            },
        ),
    decreases field.len(),
{
    let s = doubled(field) + seq!['"'] + text;
    lemma_clean(s);
    if field.len() == 0 {
        assert(s =~= seq!['"'] + text);
        assert(s.skip(1) =~= text);
        lemma_clean(text);
        assert(field =~= Seq::<char>::empty());
    } else {
        let rest = field.skip(1);
        let inner = doubled(rest) + seq!['"'] + text;
        lemma_quoted_field_round_trip(rest, text);
        if field[0] == '"' {
            assert(s =~= seq!['"', '"'] + inner);
            assert(s.skip(1) =~= seq!['"'] + inner);
            lemma_clean(s.skip(1));
            assert(s.skip(1).skip(1) =~= inner);
            assert(seq!['"'] + rest =~= field);
        } else {
            assert(s =~= seq![field[0]] + inner);
            assert(s.skip(1) =~= inner);
            assert(seq![field[0]] + rest =~= field);
        }
    }
}

/// What a plain field was scanned from. The text that was scanned, the
/// character pulled last and what followed it, is the value of the field,
/// which is plain, then the delimiter that ended it, then what the scan
/// left.
pub proof fn lemma_plain_field_reads_its_text(c: Option<char>, rest: Source)
    ensures
        plain_field(c, rest) matches Ok(f) ==> {
            let text = match c {
                Some(ch) => seq![ch] + rest.chars,
                None => rest.chars,
            };
            &&& is_plain(f.raw)
            &&& f.rest.poisoned == rest.poisoned
            &&& match f.end {
                FieldEnd::Comma => text == f.raw + seq![','] + f.rest.chars,
                FieldEnd::CarriageReturn => text == f.raw + seq!['\r'] + f.rest.chars,
                FieldEnd::LineFeed => text == f.raw + seq!['\n'] + f.rest.chars,
                FieldEnd::EndOfStream => text == f.raw + f.rest.chars && (c is Some
                    ==> f.rest.chars.len() == 0),
                FieldEnd::BreakAhead => false,
            }
        },
    decreases rest.chars.len(), (if c is Some { 1int } else { 0int }),
{
    if let Ok(f) = plain_field(c, rest) {
        let empty = Seq::<char>::empty();
        match c {
            None => {
                assert(rest.chars =~= empty + rest.chars);
            },
            Some(ch) => {
                let text = seq![ch] + rest.chars;
                if ch == ',' || ch == '\r' || ch == '\n' {
                    assert(text =~= empty + seq![ch] + rest.chars);
                } else {
                    lemma_plain_field_reads_its_text(rest.peek(), rest.advance());
                    let g = plain_field(rest.peek(), rest.advance())->Ok_0;
                    let inner = match rest.peek() {
                        Some(p) => seq![p] + rest.advance().chars,
                        None => rest.advance().chars,
                    };
                    assert(inner =~= rest.chars);
                    assert(f.raw == seq![ch] + g.raw);
                    assert forall|i: int| 0 <= i < f.raw.len() implies !is_special(
                        #[trigger] f.raw[i],
                    ) by {
                        if i > 0 {
                            assert(f.raw[i] == g.raw[i - 1]);
                        }
                    }
                    match f.end {
                        FieldEnd::Comma => {
                            assert(text =~= f.raw + seq![','] + f.rest.chars);
                        },
                        FieldEnd::CarriageReturn => {
                            assert(text =~= f.raw + seq!['\r'] + f.rest.chars);
                        },
                        FieldEnd::LineFeed => {
                            assert(text =~= f.raw + seq!['\n'] + f.rest.chars);
                        },
                        FieldEnd::EndOfStream => {
                            assert(text =~= f.raw + f.rest.chars);
                        },
                        FieldEnd::BreakAhead => {},
                    }
                }
            },
        }
    }
}

/// What a quoted field was scanned from. The text behind the opening quote
/// is the value of the field with its quotes doubled, then the closing
/// quote, then a comma and what the scan left, or what the scan left alone:
/// nothing, or text that starts with a line break.
pub proof fn lemma_escaped_field_reads_its_text(src: Source)
    ensures
        escaped_field(src) matches Ok(f) ==> {
            &&& f.rest.poisoned == src.poisoned
            &&& match f.end {
                FieldEnd::Comma => src.chars == doubled(f.raw) + seq!['"', ','] + f.rest.chars,
                FieldEnd::BreakAhead => src.chars == doubled(f.raw) + seq!['"'] + f.rest.chars
                    && f.rest.chars.len() > 0 && is_line_break(f.rest.chars[0]),
                FieldEnd::EndOfStream => src.chars == doubled(f.raw) + seq!['"']
                    && f.rest.chars.len() == 0,
                _ => false,
            }
        },
    decreases src.chars.len(),
{
    if let Ok(f) = escaped_field(src) {
        let c = src.chars[0];
        let rest = src.advance();
        let empty = Seq::<char>::empty();
        assert(src.chars =~= seq![c] + rest.chars);
        if c != '"' {
            lemma_escaped_field_reads_its_text(rest);
            let g = escaped_field(rest)->Ok_0;
            assert(f.raw == seq![c] + g.raw);
            assert(f.raw.skip(1) =~= g.raw);
            assert(doubled(f.raw) == seq![c] + doubled(g.raw));
            match f.end {
                FieldEnd::Comma => {
                    assert(src.chars =~= doubled(f.raw) + seq!['"', ','] + f.rest.chars);
                },
                FieldEnd::BreakAhead => {
                    assert(src.chars =~= doubled(f.raw) + seq!['"'] + f.rest.chars);
                },
                FieldEnd::EndOfStream => {
                    assert(src.chars =~= doubled(f.raw) + seq!['"']);
                },
                _ => {},
            }
        } else {
            assert(doubled(empty) =~= empty);
            match rest.peek() {
                None => {
                    assert(f.raw =~= empty);
                    assert(src.chars =~= doubled(f.raw) + seq!['"']);
                },
                Some(p) => {
                    if is_line_break(p) {
                        assert(f.raw =~= empty);
                        assert(src.chars =~= doubled(f.raw) + seq!['"'] + f.rest.chars);
                    } else if p == ',' {
                        assert(f.raw =~= empty);
                        assert(rest.chars =~= seq![','] + rest.advance().chars);
                        assert(src.chars =~= doubled(f.raw) + seq!['"', ','] + f.rest.chars);
                    } else {
                        let inner = rest.advance();
                        assert(rest.chars =~= seq!['"'] + inner.chars);
                        lemma_escaped_field_reads_its_text(inner);
                        let g = escaped_field(inner)->Ok_0;
                        assert(f.raw == seq!['"'] + g.raw);
                        assert(f.raw.skip(1) =~= g.raw);
                        assert(doubled(f.raw) == seq!['"', '"'] + doubled(g.raw));
                        match f.end {
                            FieldEnd::Comma => {
                                assert(src.chars =~= doubled(f.raw) + seq!['"', ','] + f.rest.chars);
                            },
                            FieldEnd::BreakAhead => {
                                assert(src.chars =~= doubled(f.raw) + seq!['"'] + f.rest.chars);
                            },
                            FieldEnd::EndOfStream => {
                                assert(src.chars =~= doubled(f.raw) + seq!['"']);
                            },
                            _ => {},
                        }
                    }
                },
            }
        }
    }
}

/// How a written field ends that is followed by `text`.
pub open spec fn written_end(field: Seq<char>, quote_all: bool, text: Seq<char>) -> FieldEnd {
    if quote_all || !is_plain(field) {
        quoted_end(text)
    } else {
        plain_end(text)
    }
}

/// What a written field leaves of the `text` that follows it.
pub open spec fn written_rest(field: Seq<char>, quote_all: bool, text: Seq<char>) -> Seq<char> {
    if quote_all || !is_plain(field) {
        quoted_rest(text)
    } else {
        tail(text)
    }
}

/// A written field that is followed by a delimiter, or by nothing, scans
/// to what was written.
pub proof fn lemma_field_round_trip(field: Seq<char>, quote_all: bool, text: Seq<char>)
    requires
        delimited(text),
        (render_field(field, quote_all) + text).len() > 0,
    ensures
        ({
            let s = render_field(field, quote_all) + text;
            field_scan(s[0], Source::clean(s.skip(1))) == Ok::<FieldScan, Flaw>(
                FieldScan {
                    raw: field,
                    end: written_end(field, quote_all, text),
                    rest: Source::clean(written_rest(field, quote_all, text)),
                },
            )
        }),
{
    let s = render_field(field, quote_all) + text;
    if quote_all || !is_plain(field) {
        lemma_quoted_field_round_trip(field, text);
        assert(s =~= seq!['"'] + (doubled(field) + seq!['"'] + text));
        assert(s.skip(1) =~= doubled(field) + seq!['"'] + text);
    } else {
        lemma_plain_field_round_trip(field, text);
        if field.len() > 0 {
            assert(s[0] == field[0]);
            assert(!is_special(field[0]));
        } else {
            assert(s =~= text);
        }
    }
}

/// A written record that is not empty starts with no line break.
proof fn lemma_record_starts_with_no_break(fields: Seq<Seq<char>>, quote_all: bool)
    requires
        render_record(fields, quote_all).len() > 0,
    ensures
        !is_line_break(render_record(fields, quote_all)[0]),
{
    let f = fields[0];
    let r = render_field(f, quote_all);
    if r.len() > 0 {
        if quote_all || !is_plain(f) {
            assert(r[0] == '"');
        } else {
            assert(r[0] == f[0]);
            assert(!is_special(f[0]));
        }
    }
}

/// The line of a record whose last field was plain ends before what
/// follows the line break.
proof fn lemma_line_end_plain(text: Seq<char>)
    requires
        line_delimited(text),
    ensures
        line_end(plain_end(text), Source::clean(tail(text))) == Ok::<Source, Flaw>(
            Source::clean(strip_break(text)),
        ),
{
    if text.len() > 0 {
        let t1 = text.skip(1);
        lemma_clean(t1);
        if text[0] == '\r' {
            if text.len() > 1 {
                assert(t1[0] == text[1]);
                assert(t1.skip(1) =~= text.skip(2));
            }
        }
    }
}

/// The line of a record that ended before a line break in the lookahead,
/// or at the end of the stream, ends before what follows the line break.
proof fn lemma_line_end_ahead(text: Seq<char>)
    requires
        line_delimited(text),
    ensures
        line_end(quoted_end(text), Source::clean(text)) == Ok::<Source, Flaw>(
            Source::clean(strip_break(text)),
        ),
{
    lemma_clean(text);
    if text.len() > 0 {
        let t1 = text.skip(1);
        lemma_clean(t1);
        if text[0] == '\r' {
            if text.len() > 1 {
                assert(t1[0] == text[1]);
                assert(t1.skip(1) =~= text.skip(2));
            }
        }
    }
}

/// The line of a record whose last field was written ends before what
/// follows the line break.
proof fn lemma_line_end_written(field: Seq<char>, quote_all: bool, text: Seq<char>)
    requires
        line_delimited(text),
    ensures
        line_end(
            written_end(field, quote_all, text),
            Source::clean(written_rest(field, quote_all, text)),
        ) == Ok::<Source, Flaw>(Source::clean(strip_break(text))),
{
    lemma_line_end_plain(text);
    lemma_line_end_ahead(text);
}

/// The claim of `lemma_record_round_trip`.
pub open spec fn record_reads_back(fields: Seq<Seq<char>>, quote_all: bool, text: Seq<char>) -> bool {
    let s = render_record(fields, quote_all) + text;
    &&& record_scan(s[0], Source::clean(s.skip(1))) matches Ok(r)
    &&& r.fields == fields
    &&& line_end(r.end, r.rest) == Ok::<Source, Flaw>(Source::clean(strip_break(text)))
}

proof fn lemma_record_of_one_field(field: Seq<char>, quote_all: bool, text: Seq<char>)
    requires
        line_delimited(text),
        (render_field(field, quote_all) + text).len() > 0,
    ensures
        record_reads_back(seq![field], quote_all, text),
{
    let fields = seq![field];
    assert(render_record(fields, quote_all) == render_field(field, quote_all));
    lemma_field_round_trip(field, quote_all, text);
    lemma_line_end_written(field, quote_all, text);
    let end = written_end(field, quote_all, text);
    assert(end != FieldEnd::Comma);
}

proof fn lemma_record_with_empty_last_field(
    first: Seq<char>,
    quote_all: bool,
    text: Seq<char>,
)
    requires
        line_delimited(text),
        !quote_all,
    ensures
        record_reads_back(seq![first, Seq::<char>::empty()], quote_all, text),
{
    let last = Seq::<char>::empty();
    let fields = seq![first, last];
    let others = fields.skip(1);
    assert(others =~= seq![last]);
    assert(is_plain(last));
    assert(render_record(others, quote_all) =~= last);
    let t0 = seq![','] + text;
    let s = render_record(fields, quote_all) + text;
    assert(render_record(fields, quote_all) =~= render_field(first, quote_all) + seq![','] + last);
    assert(s =~= render_field(first, quote_all) + t0);
    lemma_field_round_trip(first, quote_all, t0);
    assert(t0.skip(1) =~= text);
    assert(written_rest(first, quote_all, t0) == text);
    assert(written_end(first, quote_all, t0) == FieldEnd::Comma);
    lemma_clean(text);
    lemma_line_end_ahead(text);
}

proof fn lemma_record_of_more_fields(fields: Seq<Seq<char>>, quote_all: bool, text: Seq<char>)
    requires
        fields.len() >= 2,
        line_delimited(text),
        render_record(fields.skip(1), quote_all).len() > 0,
        record_reads_back(fields.skip(1), quote_all, text),
    ensures
        record_reads_back(fields, quote_all, text),
{
    let first = fields[0];
    let others = fields.skip(1);
    let r1 = render_record(others, quote_all);
    let s = render_record(fields, quote_all) + text;
    let t0 = seq![','] + r1 + text;
    let after = r1 + text;
    assert(s =~= render_field(first, quote_all) + t0);
    lemma_field_round_trip(first, quote_all, t0);
    assert(t0.skip(1) =~= after);
    assert(written_rest(first, quote_all, t0) == after);
    assert(written_end(first, quote_all, t0) == FieldEnd::Comma);
    lemma_clean(after);
    lemma_record_starts_with_no_break(others, quote_all);
    assert(after[0] == r1[0]);
    let f = field_scan(s[0], Source::clean(s.skip(1)))->Ok_0;
    assert(f.rest == Source::clean(after));
    let inner = record_scan(after[0], Source::clean(after.skip(1)));
    assert(record_scan(s[0], Source::clean(s.skip(1))) == with_field(first, inner));
    assert(seq![first] + others =~= fields);
}

/// A written record that is followed by a line break, or by nothing, scans
/// to the fields that were written, and its line ends before what follows
/// the line break.
pub proof fn lemma_record_round_trip(fields: Seq<Seq<char>>, quote_all: bool, text: Seq<char>)
    requires
        fields.len() >= 1,
        line_delimited(text),
        (render_record(fields, quote_all) + text).len() > 0,
    ensures
        record_reads_back(fields, quote_all, text),
    decreases fields.len(),
{
    if fields.len() == 1 {
        assert(fields =~= seq![fields[0]]);
        lemma_record_of_one_field(fields[0], quote_all, text);
    } else {
        let others = fields.skip(1);
        let r1 = render_record(others, quote_all);
        if r1.len() > 0 {
            lemma_record_round_trip(others, quote_all, text);
            lemma_record_of_more_fields(fields, quote_all, text);
        } else {
            // nothing was written for the rest: it is one empty field
            assert(others.len() == 1);
            assert(render_field(others[0], quote_all).len() == 0);
            assert(!quote_all);
            assert(others[0] =~= Seq::<char>::empty());
            assert(fields =~= seq![fields[0], Seq::<char>::empty()]);
            lemma_record_with_empty_last_field(fields[0], quote_all, text);
        }
    }
}

/// What was written for records starts with no line feed, unless line
/// breaks start with one.
proof fn lemma_render_start(
    records: Seq<Seq<Seq<char>>>,
    line_break: Seq<char>,
    quote_all: bool,
    terminated: bool,
)
    requires
        is_line_break_text(line_break),
        render(records, line_break, quote_all, terminated).len() > 0,
    ensures
        render(records, line_break, quote_all, terminated)[0] != '\n' || line_break[0] == '\n',
{
    let r = render_record(records[0], quote_all);
    if r.len() > 0 {
        lemma_record_starts_with_no_break(records[0], quote_all);
    }
}

/// What stands behind the first record in what was written for `records`.
pub open spec fn behind_first(
    records: Seq<Seq<Seq<char>>>,
    line_break: Seq<char>,
    quote_all: bool,
    terminated: bool,
) -> Seq<char> {
    if records.len() == 1 {
        if terminated {
            line_break
        } else {
            Seq::<char>::empty()
        }
    } else {
        line_break + render(records.skip(1), line_break, quote_all, terminated)
    }
}

/// Behind the first record and its line break stand the other records.
proof fn lemma_behind_first(
    records: Seq<Seq<Seq<char>>>,
    line_break: Seq<char>,
    quote_all: bool,
    terminated: bool,
)
    requires
        records.len() >= 1,
        is_line_break_text(line_break),
    ensures
        ({
            let behind = behind_first(records, line_break, quote_all, terminated);
            &&& render(records, line_break, quote_all, terminated) == render_record(
                records[0],
                quote_all,
            ) + behind
            &&& line_delimited(behind)
            &&& strip_break(behind) == render(records.skip(1), line_break, quote_all, terminated)
        }),
{
    let behind = behind_first(records, line_break, quote_all, terminated);
    let others = records.skip(1);
    let rest_text = render(others, line_break, quote_all, terminated);
    assert(render(records, line_break, quote_all, terminated) =~= render_record(
        records[0],
        quote_all,
    ) + behind);
    if records.len() == 1 {
        assert(others.len() == 0);
        assert(rest_text =~= Seq::<char>::empty());
        if terminated {
            assert(strip_break(behind) =~= rest_text);
        }
    } else {
        if rest_text.len() > 0 {
            lemma_render_start(others, line_break, quote_all, terminated);
            assert(behind[line_break.len() as int] == rest_text[0]);
        }
        assert(behind.skip(line_break.len() as int) =~= rest_text);
        assert(behind[0] == line_break[0]);
        if line_break.len() == 2 {
            assert(behind[1] == line_break[1]);
        }
        assert(strip_break(behind) =~= rest_text);
    }
}

/// The first of the written records makes the first token, and leaves what
/// was written for the others.
proof fn lemma_first_record(
    cfg: Config,
    fields: Seq<Seq<char>>,
    quote_all: bool,
    behind: Seq<char>,
    line: nat,
    expected: nat,
)
    requires
        fields.len() >= 1,
        line_delimited(behind),
        (render_record(fields, quote_all) + behind).len() > 0,
        line != 1 ==> fields.len() == expected,
    ensures
        ({
            let s = render_record(fields, quote_all) + behind;
            record_step(cfg, s[0], Source::clean(s.skip(1)), line, expected) == Ok::<Step, Failure>(
                Step {
                    token: TokenView {
                        kind: TokenType::Record,
                        fields: normalize_all(cfg, fields),
                        line,
                    },
                    rest: Source::clean(strip_break(behind)),
                },
            )
        }),
{
    lemma_record_round_trip(fields, quote_all, behind);
}

/// The records have the same number of fields, and at least one.
pub open spec fn rectangular(records: Seq<Seq<Seq<char>>>) -> bool {
    forall|i: int|
        0 <= i < records.len() ==> (#[trigger] records[i]).len() >= 1 && records[i].len()
            == records[0].len()
}

/// The last record is no empty line, that is, one empty field that is
/// written without quotes.
pub open spec fn last_line_shows(records: Seq<Seq<Seq<char>>>, quote_all: bool) -> bool {
    records.len() > 0 && !quote_all ==> records.last() != seq![Seq::<char>::empty()]
}

proof fn lemma_other_records(records: Seq<Seq<Seq<char>>>, quote_all: bool)
    requires
        records.len() >= 1,
        rectangular(records),
    ensures
        rectangular(records.skip(1)),
        records.len() > 1 ==> records.skip(1)[0].len() == records[0].len(),
        records.len() > 1 ==> records.skip(1).last() == records.last(),
        last_line_shows(records, quote_all) ==> last_line_shows(records.skip(1), quote_all),
{
    let others = records.skip(1);
    assert forall|i: int| 0 <= i < others.len() implies (#[trigger] others[i]).len() >= 1
        && others[i].len() == others[0].len() by {
        assert(others[i] == records[i + 1]);
        assert(others[0] == records[1]);
    }
    if others.len() > 0 {
        assert(others.last() == records.last());
        assert(others[0] == records[1]);
    }
}

proof fn lemma_tokens_of_first(cfg: Config, records: Seq<Seq<Seq<char>>>, line: nat)
    requires
        records.len() >= 1,
    ensures
        tokens_of(cfg, records, line) == seq![
            TokenView { kind: TokenType::Record, fields: normalize_all(cfg, records[0]), line },
        ] + tokens_of(cfg, records.skip(1), line + 1),
{
    let token = TokenView {
        kind: TokenType::Record,
        fields: normalize_all(cfg, records[0]),
        line,
    };
    assert(seq![token] + tokens_of(cfg, records.skip(1), line + 1) =~= tokens_of(
        cfg,
        records,
        line,
    ));
}

/// Where nothing was written for records that are there, the records are
/// one empty line.
proof fn lemma_nothing_written(
    records: Seq<Seq<Seq<char>>>,
    line_break: Seq<char>,
    quote_all: bool,
    terminated: bool,
)
    requires
        records.len() >= 1,
        rectangular(records),
        is_line_break_text(line_break),
        render(records, line_break, quote_all, terminated).len() == 0,
    ensures
        !terminated,
        !quote_all,
        records.last() == seq![Seq::<char>::empty()],
{
    let fields = records[0];
    assert(render_record(fields, quote_all).len() == 0);
    assert(records.len() == 1);
    assert(fields.len() == 1);
    assert(fields[0] =~= Seq::<char>::empty());
    assert(fields =~= seq![Seq::<char>::empty()]);
    assert(records.last() == fields);
}

/// The parse of a text that starts with a record is the token of that
/// record before the parse of what the record leaves.
proof fn lemma_parse_step(
    cfg: Config,
    text: Seq<char>,
    line: nat,
    expected: nat,
    token: TokenView,
    rest: Seq<char>,
    tokens: Seq<TokenView>,
)
    requires
        text.len() > 0,
        record_step(cfg, text[0], Source::clean(text.skip(1)), line, expected) == Ok::<
            Step,
            Failure,
        >(Step { token, rest: Source::clean(rest) }),
        parse_from(cfg, Source::clean(rest), line + 1, token.fields.len()) == Ok::<
            Seq<TokenView>,
            Failure,
        >(tokens),
    ensures
        parse_from(cfg, Source::clean(text), line, expected) == Ok::<Seq<TokenView>, Failure>(
            seq![token] + tokens,
        ),
{
    lemma_clean(text);
}

/// Parsing reads back what was written. The records have the same number
/// of fields, and at least one; each field is written plain or between
/// quotes, the records are joined by a line break, and the parse gives one
/// token for each record, with the fields as they were written, normalized
/// by the settings. One text cannot be read back: a last line that is
/// empty and has no line break behind it, since nothing shows that it is
/// there.
pub proof fn lemma_round_trip_from(
    cfg: Config,
    records: Seq<Seq<Seq<char>>>,
    line_break: Seq<char>,
    quote_all: bool,
    terminated: bool,
    line: nat,
    expected: nat,
)
    requires
        is_line_break_text(line_break),
        rectangular(records),
        records.len() > 0 && line != 1 ==> records[0].len() == expected,
        !terminated ==> last_line_shows(records, quote_all),
    ensures
        parse_from(
            cfg,
            Source::clean(render(records, line_break, quote_all, terminated)),
            line,
            expected,
        ) == Ok::<Seq<TokenView>, Failure>(tokens_of(cfg, records, line)),
    decreases records.len(),
{
    let text = render(records, line_break, quote_all, terminated);
    if records.len() == 0 {
        assert(tokens_of(cfg, records, line) =~= Seq::<TokenView>::empty());
    } else {
        let fields = records[0];
        let others = records.skip(1);
        let behind = behind_first(records, line_break, quote_all, terminated);
        let token = TokenView {
            kind: TokenType::Record,
            fields: normalize_all(cfg, fields),
            line,
        };
        lemma_behind_first(records, line_break, quote_all, terminated);
        if text.len() == 0 {
            lemma_nothing_written(records, line_break, quote_all, terminated);
        }
        lemma_first_record(cfg, fields, quote_all, behind, line, expected);
        lemma_other_records(records, quote_all);
        lemma_round_trip_from(
            cfg,
            others,
            line_break,
            quote_all,
            terminated,
            line + 1,
            fields.len(),
        );
        assert(token.fields.len() == fields.len());
        lemma_parse_step(
            cfg,
            text,
            line,
            expected,
            token,
            render(others, line_break, quote_all, terminated),
            tokens_of(cfg, others, line + 1),
        );
        lemma_tokens_of_first(cfg, records, line);
    }
}

/// Parsing reads back plain records: where no field holds a comma, a quote
/// or a line break, the records have the same number of fields, and at
/// least one, and the records are written as lines of fields with commas
/// between them, joined by a line break, the parse gives the fields of
/// each record in their order, normalized by the settings, and unchanged
/// under the settings of a new parser. Left out is a last line that is
/// empty and has no line break behind it.
pub proof fn lemma_round_trip_plain(
    cfg: Config,
    records: Seq<Seq<Seq<char>>>,
    line_break: Seq<char>,
    terminated: bool,
)
    requires
        is_line_break_text(line_break),
        forall|i: int, j: int|
            0 <= i < records.len() && 0 <= j < records[i].len() ==> is_plain(
                #[trigger] records[i][j],
            ),
        rectangular(records),
        !terminated ==> last_line_shows(records, false),
    ensures
        forall|i: int, j: int|
            0 <= i < records.len() && 0 <= j < records[i].len() ==> render_field(
                #[trigger] records[i][j],
                false,
            ) == records[i][j],
        parse_text(cfg, render(records, line_break, false, terminated)) == Ok::<
            Seq<TokenView>,
            Failure,
        >(tokens_of(cfg, records, 1)),
        !cfg.trim_space && !cfg.all_whitespace_empty ==> forall|i: int|
            0 <= i < records.len() ==> (#[trigger] tokens_of(cfg, records, 1)[i]).fields
                == records[i],
{
    lemma_round_trip_from(cfg, records, line_break, false, terminated, 1, 0);
    if !cfg.trim_space && !cfg.all_whitespace_empty {
        assert forall|i: int| 0 <= i < records.len() implies (#[trigger] tokens_of(
            cfg,
            records,
            1,
        )[i]).fields == records[i] by {
            assert(normalize_all(cfg, records[i]) =~= records[i]);
        }
    }
}

/// Parsing reads back quoted fields: whatever the fields hold, commas,
/// quotes and line breaks among it, where every field is written between
/// quotes with the quotes inside it doubled, the parse gives what the fields
/// held, normalized by the settings, and unchanged under the settings of a
/// new parser.
pub proof fn lemma_round_trip_quoted(
    cfg: Config,
    records: Seq<Seq<Seq<char>>>,
    line_break: Seq<char>,
    terminated: bool,
)
    requires
        is_line_break_text(line_break),
        rectangular(records),
    ensures
        parse_text(cfg, render(records, line_break, true, terminated)) == Ok::<
            Seq<TokenView>,
            Failure,
        >(tokens_of(cfg, records, 1)),
        !cfg.trim_space && !cfg.all_whitespace_empty ==> forall|i: int|
            0 <= i < records.len() ==> (#[trigger] tokens_of(cfg, records, 1)[i]).fields
                == records[i],
{
    lemma_round_trip_from(cfg, records, line_break, true, terminated, 1, 0);
    if !cfg.trim_space && !cfg.all_whitespace_empty {
        assert forall|i: int| 0 <= i < records.len() implies (#[trigger] tokens_of(
            cfg,
            records,
            1,
        )[i]).fields == records[i] by {
            assert(normalize_all(cfg, records[i]) =~= records[i]);
        }
    }
}

} // verus!
