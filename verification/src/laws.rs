//! Laws of the parser: what holds of every input.

use vstd::prelude::*;
use crate::decode::Source;
use crate::error::Failure;
use crate::grammar::{
    lemma_line_end_shrinks,
    lemma_record_scan_shrinks,
    line_end,
    normalize,
    normalize_all,
    parse,
    parse_from,
    record_scan,
    tokens_of,
    with_token,
    Config,
    Flaw,
};
use crate::text::{all_whitespace, lemma_trim_all_whitespace, trim};
use crate::token::{TokenType, TokenView};

verus! {

/// The records of a stream as they are scanned, whatever the number of
/// their fields, up to the end of the stream or to the first flaw.
#[verifier::ext_equal]
pub struct Ragged {
    pub records: Seq<Seq<Seq<char>>>,
    pub flaw: Option<Flaw>,
}

/// The records of `src`, scanned without the rule on the number of fields.
pub open spec fn ragged_records(src: Source) -> Ragged
    decreases src.chars.len(),
{
    if src.blocked() {
        Ragged { records: Seq::empty(), flaw: Some(Flaw::InvalidEncoding) }
    } else if src.chars.len() == 0 {
        Ragged { records: Seq::empty(), flaw: None }
    } else {
        match record_scan(src.chars[0], src.advance()) {
            Err(flaw) => Ragged { records: Seq::empty(), flaw: Some(flaw) },
            Ok(r) => match line_end(r.end, r.rest) {
                Err(flaw) => Ragged { records: seq![r.fields], flaw: Some(flaw) },
                Ok(rest) => {
                    proof {
                        lemma_record_scan_shrinks(src.chars[0], src.advance());
                        lemma_line_end_shrinks(r.end, r.rest);
                    }
                    let more = ragged_records(rest);
                    Ragged { records: seq![r.fields] + more.records, flaw: more.flaw }
                },
            },
        }
    }
}

/// The number of fields that the records of a parse must have: that of the
/// first record where the parse starts at line 1, `expected` after that.
pub open spec fn required_fields(records: Seq<Seq<Seq<char>>>, line: nat, expected: nat) -> nat {
    if line == 1 && records.len() > 0 {
        records[0].len()
    } else {
        expected
    }
}

/// The first `count` of the records have `fields` fields each.
pub open spec fn agree(records: Seq<Seq<Seq<char>>>, count: int, fields: nat) -> bool {
    forall|k: int| 0 <= k < count && k < records.len() ==> (#[trigger] records[k]).len() == fields
}

/// What a parse gives, told from the records as they are scanned: the
/// tokens of all of them where they agree in the number of their fields
/// and no flaw ends them; `FieldCountMismatch` for the first record that
/// deviates, with its line, where one does; else the flaw.
pub open spec fn judged(
    cfg: Config,
    ragged: Ragged,
    line: nat,
    expected: nat,
    result: Result<Seq<TokenView>, Failure>,
) -> bool {
    let records = ragged.records;
    let n = required_fields(records, line, expected);
    match result {
        Ok(tokens) => {
            &&& ragged.flaw is None
            &&& agree(records, records.len() as int, n)
            &&& tokens == tokens_of(cfg, records, line)
        },
        Err(Failure::FieldCountMismatch { expected: e, found, line: l }) => {
            &&& line <= l < line + records.len()
            &&& agree(records, l - line, n)
            &&& e == n
            &&& found == records[l - line].len()
            &&& found != n
        },
        Err(failure) => {
            &&& ragged.flaw matches Some(flaw)
            &&& agree(records, records.len() as int, n)
            &&& failure == flaw.at(line + records.len())
        },
    }
}

/// The rule on the number of fields, for a parse that starts at any line.
pub proof fn lemma_field_count_from(cfg: Config, src: Source, line: nat, expected: nat)
    requires
        line >= 1,
    ensures
        judged(cfg, ragged_records(src), line, expected, parse_from(cfg, src, line, expected)),
    decreases src.chars.len(),
{
    let ragged = ragged_records(src);
    let result = parse_from(cfg, src, line, expected);
    if src.blocked() {
    } else if src.chars.len() == 0 {
        assert(tokens_of(cfg, ragged.records, line) =~= Seq::<TokenView>::empty());
    } else {
        match record_scan(src.chars[0], src.advance()) {
            Err(flaw) => {},
            Ok(r) => {
                assert(ragged.records[0] == r.fields);
                if line != 1 && r.fields.len() != expected {
                } else {
                    match line_end(r.end, r.rest) {
                        Err(flaw) => {},
                        Ok(rest) => {
                            lemma_record_scan_shrinks(src.chars[0], src.advance());
                            lemma_line_end_shrinks(r.end, r.rest);
                            lemma_field_count_from(cfg, rest, line + 1, r.fields.len());
                            lemma_judged_step(
                                cfg,
                                r.fields,
                                ragged_records(rest),
                                line,
                                expected,
                                parse_from(cfg, rest, line + 1, r.fields.len()),
                            );
                        },
                    }
                }
            },
        }
    }
}

/// A record that keeps the rule, before records that were judged, keeps the
/// judgement.
proof fn lemma_judged_step(
    cfg: Config,
    fields: Seq<Seq<char>>,
    more: Ragged,
    line: nat,
    expected: nat,
    result: Result<Seq<TokenView>, Failure>,
)
    requires
        line >= 1,
        line == 1 || fields.len() == expected,
        judged(cfg, more, line + 1, fields.len(), result),
    ensures
        judged(
            cfg,
            Ragged { records: seq![fields] + more.records, flaw: more.flaw },
            line,
            expected,
            with_token(
                TokenView { kind: TokenType::Record, fields: normalize_all(cfg, fields), line },
                result,
            ),
        ),
{
    let records = seq![fields] + more.records;
    let n = fields.len();
    let token = TokenView { kind: TokenType::Record, fields: normalize_all(cfg, fields), line };
    assert(required_fields(records, line, expected) == n);
    assert(required_fields(more.records, line + 1, n) == n);
    assert forall|k: int| 0 < k < records.len() implies #[trigger] records[k] == more.records[k
        - 1] by {}
    match result {
        Ok(tokens) => {
            assert(seq![token] + tokens_of(cfg, more.records, line + 1) =~= tokens_of(
                cfg,
                records,
                line,
            ));
            assert forall|k: int| 0 <= k < records.len() implies (#[trigger] records[k]).len()
                == n by {
                if k > 0 {
                    assert(records[k] == more.records[k - 1]);
                }
            }
        },
        Err(Failure::FieldCountMismatch { expected: e, found, line: l }) => {
            assert(records[l - line] == more.records[l - line - 1]);
            assert forall|k: int| 0 <= k < l - line && k < records.len() implies (
            #[trigger] records[k]).len() == n by {
                if k > 0 {
                    assert(records[k] == more.records[k - 1]);
                }
            }
        },
        Err(failure) => {
            assert forall|k: int| 0 <= k < records.len() implies (#[trigger] records[k]).len()
                == n by {
                if k > 0 {
                    assert(records[k] == more.records[k - 1]);
                }
            }
        },
    }
}

/// The rule on the number of fields. Take the records of the input as they
/// are scanned one by one. A parse succeeds only where each of them has as
/// many fields as the first, and then gives all of them, each with its
/// fields in full and with its number as its line. Where a record
/// deviates, the parse fails with `FieldCountMismatch` for the first such
/// record: `line` is its number, counted from 1, `found` the number of its
/// fields and `expected` that of the first record. Any other failure is
/// the flaw that ended the scan.
pub proof fn lemma_field_count_invariant(cfg: Config, src: Source)
    ensures
        judged(cfg, ragged_records(src), 1, 0, parse(cfg, src)),
        parse(cfg, src) matches Ok(tokens) ==> forall|k: int|
            0 <= k < tokens.len() ==> (#[trigger] tokens[k]).fields.len() == tokens[0].fields.len()
                && tokens[k].line == k + 1,
{
    lemma_field_count_from(cfg, src, 1, 0);
    if let Ok(tokens) = parse(cfg, src) {
        let records = ragged_records(src).records;
        assert forall|k: int| 0 <= k < tokens.len() implies (#[trigger] tokens[k]).fields.len()
            == tokens[0].fields.len() && tokens[k].line == k + 1 by {
            assert(tokens[k].fields.len() == records[k].len());
            assert(tokens[0].fields.len() == records[0].len());
        }
    }
}

/// The header flag changes no token and no failure: it is kept for the
/// caller, and the scanner does not read it.
pub proof fn lemma_header_flag_is_not_read(
    cfg: Config,
    flag: bool,
    src: Source,
    line: nat,
    expected: nat,
)
    ensures
        parse_from(Config { has_header: flag, ..cfg }, src, line, expected) == parse_from(
            cfg,
            src,
            line,
            expected,
        ),
    decreases src.chars.len(),
{
    let other = Config { has_header: flag, ..cfg };
    if !src.blocked() && src.chars.len() > 0 {
        if let Ok(r) = record_scan(src.chars[0], src.advance()) {
            assert(normalize_all(other, r.fields) =~= normalize_all(cfg, r.fields));
            if let Ok(rest) = line_end(r.end, r.rest) {
                lemma_record_scan_shrinks(src.chars[0], src.advance());
                lemma_line_end_shrinks(r.end, r.rest);
                lemma_header_flag_is_not_read(cfg, flag, rest, line + 1, r.fields.len());
            }
        }
    }
}

/// The two whitespace settings together. With `trim_space`, the stored
/// value is the trimmed one, whatever `all_whitespace_empty` says: a field
/// of whitespace alone trims to the empty string. Without `trim_space`, a
/// field of whitespace alone is stored empty under `all_whitespace_empty`,
/// and every other field is stored as it is.
pub proof fn lemma_whitespace_policies(cfg: Config, raw: Seq<char>)
    ensures
        cfg.trim_space ==> normalize(cfg, raw) == trim(raw),
        !cfg.trim_space && cfg.all_whitespace_empty && all_whitespace(raw) ==> normalize(cfg, raw)
            == Seq::<char>::empty(),
        !cfg.trim_space && !(cfg.all_whitespace_empty && all_whitespace(raw)) ==> normalize(
            cfg,
            raw,
        ) == raw,
        all_whitespace(raw) && (cfg.trim_space || cfg.all_whitespace_empty) ==> normalize(cfg, raw)
            == Seq::<char>::empty(),
{
    if all_whitespace(raw) {
        lemma_trim_all_whitespace(raw);
    }
}

} // verus!
