use rust_csv_parser::{CsvError, CsvParser, Token, TokenType};

fn values(tokens: &[Token]) -> Vec<Vec<String>> {
    tokens.iter().map(|t| t.value.clone()).collect()
}

fn rows(expect: &[&[&str]]) -> Vec<Vec<String>> {
    expect
        .iter()
        .map(|row| row.iter().map(|f| f.to_string()).collect())
        .collect()
}

fn parse_text(text: &str) -> Result<Vec<Token>, CsvError> {
    CsvParser::from_string(text.to_string()).parse()
}

fn render(records: &[Vec<String>], line_break: &str) -> String {
    let lines: Vec<String> = records.iter().map(|r| r.join(",")).collect();
    lines.join(line_break)
}

fn quote(field: &str) -> String {
    format!("\"{}\"", field.replace('"', "\"\""))
}

#[test]
fn round_trip_of_plain_records() {
    let records = rows(&[&["1", "2", "3"], &["a", "b", "c"], &["x y", "", "z"]]);
    let tokens = parse_text(&render(&records, "\n")).unwrap();
    assert_eq!(values(&tokens), records);
}

#[test]
fn round_trip_with_every_line_break() {
    let records = rows(&[&["1", "2"], &["", ""], &["a", ""], &["", "b"]]);
    for line_break in ["\n", "\r", "\r\n"] {
        let text = render(&records, line_break);
        let tokens = parse_text(&text).unwrap();
        assert_eq!(values(&tokens), records);
        let terminated = format!("{text}{line_break}");
        let tokens = parse_text(&terminated).unwrap();
        assert_eq!(values(&tokens), records);
    }
}

#[test]
fn round_trip_of_a_single_column() {
    let records = rows(&[&["a"], &[""], &["b"]]);
    for line_break in ["\n", "\r", "\r\n"] {
        let tokens = parse_text(&render(&records, line_break)).unwrap();
        assert_eq!(values(&tokens), records);
    }
}

#[test]
fn an_empty_last_line_is_no_record() {
    let tokens = parse_text("a\n").unwrap();
    assert_eq!(values(&tokens), rows(&[&["a"]]));
    let tokens = parse_text("a\n\n").unwrap();
    assert_eq!(values(&tokens), rows(&[&["a"], &[""]]));
}

#[test]
fn quoted_field_parses_back_to_its_content() {
    for field in ["a,b", "line one\nline two", "say \"hi\"", "\"", "\r\n", ",\",\n", "plain", ""] {
        let text = format!("{},x\n", quote(field));
        let tokens = parse_text(&text).unwrap();
        assert_eq!(values(&tokens), rows(&[&[field, "x"]]));
        let text = format!("x,{}", quote(field));
        let tokens = parse_text(&text).unwrap();
        assert_eq!(values(&tokens), rows(&[&["x", field]]));
    }
}

#[test]
fn quoted_fields_in_several_records() {
    let text = "\"a,1\",\"b\"\"2\"\r\n\"c\n3\",\"\"\r\n";
    let tokens = parse_text(text).unwrap();
    assert_eq!(values(&tokens), rows(&[&["a,1", "b\"2"], &["c\n3", ""]]));
}

#[test]
fn pairs_of_quotes() {
    assert_eq!(values(&parse_text("\"\"").unwrap()), rows(&[&[""]]));
    assert_eq!(values(&parse_text("\"\"\"\"").unwrap()), rows(&[&["\""]]));
    assert_eq!(values(&parse_text("\"\"\"\"\"\"").unwrap()), rows(&[&["\"\""]]));
}

#[test]
fn every_record_has_the_fields_of_the_first() {
    let tokens = parse_text("a,b,c\n1,2,3\n,,\nx,,z").unwrap();
    assert_eq!(tokens.len(), 4);
    for token in &tokens {
        assert_eq!(token.value.len(), tokens[0].value.len());
    }
}

#[test]
fn field_count_mismatch_names_the_line() {
    assert_eq!(
        parse_text("1,2,3\n4,5\n6").unwrap_err(),
        CsvError::FieldCountMismatch { expected: 3, found: 2, line: 2 }
    );
    assert_eq!(
        parse_text("1,2\n3,4\n5,6,7\n").unwrap_err(),
        CsvError::FieldCountMismatch { expected: 2, found: 3, line: 3 }
    );
    assert_eq!(
        parse_text("a\nb,\n").unwrap_err(),
        CsvError::FieldCountMismatch { expected: 1, found: 2, line: 2 }
    );
}

#[test]
fn whitespace_policies_on_a_field_of_spaces() {
    let text = "a,  ,b\n";
    let both_off = CsvParser::from_string(text.to_string()).parse().unwrap();
    assert_eq!(values(&both_off), rows(&[&["a", "  ", "b"]]));
    let trim_only = CsvParser::from_string(text.to_string()).trim_space(true).parse().unwrap();
    assert_eq!(values(&trim_only), rows(&[&["a", "", "b"]]));
    let empty_only =
        CsvParser::from_string(text.to_string()).all_whitespace_empty(true).parse().unwrap();
    assert_eq!(values(&empty_only), rows(&[&["a", "", "b"]]));
    let both_on = CsvParser::from_string(text.to_string())
        .all_whitespace_empty(true)
        .trim_space(true)
        .parse()
        .unwrap();
    assert_eq!(values(&both_on), rows(&[&["a", "", "b"]]));
}

#[test]
fn all_whitespace_empty_leaves_other_fields_untrimmed() {
    let tokens = CsvParser::from_string(" a ,\t \n".to_string())
        .all_whitespace_empty(true)
        .parse()
        .unwrap();
    assert_eq!(values(&tokens), rows(&[&[" a ", ""]]));
    let tokens = CsvParser::from_string(" a ,\t \n".to_string())
        .all_whitespace_empty(true)
        .trim_space(true)
        .parse()
        .unwrap();
    assert_eq!(values(&tokens), rows(&[&["a", ""]]));
}

#[test]
fn trimming_holds_for_quoted_fields_and_at_the_end() {
    let tokens = CsvParser::from_string("\" a \", b ".to_string()).trim_space(true).parse().unwrap();
    assert_eq!(values(&tokens), rows(&[&["a", "b"]]));
    let tokens = CsvParser::from_string("\" a \", b ".to_string()).parse().unwrap();
    assert_eq!(values(&tokens), rows(&[&[" a ", " b "]]));
    let tokens = CsvParser::from_string("x,\"  \"".to_string())
        .all_whitespace_empty(true)
        .parse()
        .unwrap();
    assert_eq!(values(&tokens), rows(&[&["x", ""]]));
}

#[test]
fn trimming_strips_unicode_whitespace() {
    let tokens = CsvParser::from_string("\u{3000}a b\u{a0}\t,\u{2003}\n".to_string())
        .trim_space(true)
        .parse()
        .unwrap();
    assert_eq!(values(&tokens), rows(&[&["a b", ""]]));
}

#[test]
fn empty_input_has_no_records() {
    let tokens = parse_text("").unwrap();
    assert!(tokens.is_empty());
}

#[test]
fn trailing_line_break_adds_no_record() {
    let tokens = parse_text("1,2,3\n4,5,6\n").unwrap();
    assert_eq!(values(&tokens), rows(&[&["1", "2", "3"], &["4", "5", "6"]]));
}

#[test]
fn empty_fields_are_fields() {
    let tokens = parse_text(",,,\n,,,").unwrap();
    assert_eq!(values(&tokens), rows(&[&["", "", "", ""], &["", "", "", ""]]));
}

#[test]
fn carriage_return_and_line_feed_are_one_line_break() {
    let tokens = parse_text("a,b\r\nc,d\r\n").unwrap();
    assert_eq!(values(&tokens), rows(&[&["a", "b"], &["c", "d"]]));
    let tokens = parse_text("\"a\",\"b\"\r\nc,\r\n").unwrap();
    assert_eq!(values(&tokens), rows(&[&["a", "b"], &["c", ""]]));
}

#[test]
fn line_feed_then_carriage_return_are_two_line_breaks() {
    let tokens = parse_text("a\n\rb").unwrap();
    assert_eq!(values(&tokens), rows(&[&["a"], &[""], &["b"]]));
}

#[test]
fn a_bare_line_break_is_a_record_of_one_empty_field() {
    assert_eq!(values(&parse_text("\n").unwrap()), rows(&[&[""]]));
    assert_eq!(values(&parse_text("\r\n").unwrap()), rows(&[&[""]]));
    assert_eq!(values(&parse_text("\na").unwrap()), rows(&[&[""], &["a"]]));
    assert_eq!(
        parse_text("a,b\n\nc,d").unwrap_err(),
        CsvError::FieldCountMismatch { expected: 2, found: 1, line: 2 }
    );
    assert_eq!(
        parse_text("\na,b").unwrap_err(),
        CsvError::FieldCountMismatch { expected: 1, found: 2, line: 2 }
    );
}

#[test]
fn a_comma_before_the_end_makes_an_empty_last_field() {
    assert_eq!(values(&parse_text("a,").unwrap()), rows(&[&["a", ""]]));
    assert_eq!(values(&parse_text("a,\nb,\r\n").unwrap()), rows(&[&["a", ""], &["b", ""]]));
    assert_eq!(values(&parse_text("\"a\",").unwrap()), rows(&[&["a", ""]]));
    assert_eq!(values(&parse_text("\"a\",\n\"b\",").unwrap()), rows(&[&["a", ""], &["b", ""]]));
    assert_eq!(values(&parse_text(",").unwrap()), rows(&[&["", ""]]));
}

#[test]
fn a_quote_inside_a_plain_field_is_refused() {
    assert_eq!(parse_text("ab\"c,d").unwrap_err(), CsvError::UnexpectedQuote { line: 1 });
    assert_eq!(parse_text("a,b\nc,d\"\n").unwrap_err(), CsvError::UnexpectedQuote { line: 2 });
    assert_eq!(parse_text("a, \"b\"").unwrap_err(), CsvError::UnexpectedQuote { line: 1 });
}

#[test]
fn a_closing_quote_needs_a_delimiter_behind_it() {
    assert_eq!(parse_text("\"abc\"d,e").unwrap_err(), CsvError::UnterminatedQuote { line: 1 });
    assert_eq!(parse_text("x\n\"abc\" ,e").unwrap_err(), CsvError::UnterminatedQuote { line: 2 });
}

#[test]
fn the_input_may_not_end_inside_quotes() {
    assert_eq!(parse_text("\"abc").unwrap_err(), CsvError::UnterminatedQuote { line: 1 });
    assert_eq!(parse_text("\"").unwrap_err(), CsvError::UnterminatedQuote { line: 1 });
    assert_eq!(parse_text("a\n\"b\"\"").unwrap_err(), CsvError::UnterminatedQuote { line: 2 });
}

#[test]
fn malformed_bytes_fail_the_parse() {
    let inputs: Vec<Vec<u8>> = vec![
        vec![0xFF],
        vec![0x80],
        vec![b'a', b',', 0xF8, b'b'],
        vec![b'a', 0xC3, 0x28],
        vec![0xC0, 0x80],
        vec![b'a', b'\n', 0xED, 0xA0, 0x80],
        vec![0xF4, 0x90, 0x80, 0x80, b'\n'],
        vec![0xE2, 0x28, 0xA1],
    ];
    for bytes in inputs {
        assert_eq!(CsvParser::new(bytes).parse().unwrap_err(), CsvError::InvalidEncoding);
    }
}

#[test]
fn a_sequence_cut_short_by_the_end_is_dropped() {
    let tokens = CsvParser::new(vec![b'a', b',', b'b', b'\n', 0xE2, 0x82]).parse().unwrap();
    assert_eq!(values(&tokens), rows(&[&["a", "b"]]));
    let tokens = CsvParser::new(vec![b'a', b',', 0xC3]).parse().unwrap();
    assert_eq!(values(&tokens), rows(&[&["a", ""]]));
    let tokens = CsvParser::new(vec![b'a', b'b', 0xF0, 0x9F, 0x98]).parse().unwrap();
    assert_eq!(values(&tokens), rows(&[&["ab"]]));
    let tokens = CsvParser::new(vec![0xE2]).parse().unwrap();
    assert!(tokens.is_empty());
}

#[test]
fn malformed_bytes_behind_the_lookahead_come_first() {
    let err = CsvParser::new(vec![b'a', b'"', 0xFF]).parse().unwrap_err();
    assert_eq!(err, CsvError::InvalidEncoding);
    let err = CsvParser::new(vec![b'a', b'"', b'b', 0xFF]).parse().unwrap_err();
    assert_eq!(err, CsvError::UnexpectedQuote { line: 1 });
    let err = CsvParser::new(vec![b'a', b',', b'b', b'\n', b'c', b'\n', 0xFF]).parse().unwrap_err();
    assert_eq!(err, CsvError::InvalidEncoding);
    let err = CsvParser::new(vec![b'a', b',', b'b', b'\n', b'c', b'\n', b'd', 0xFF])
        .parse()
        .unwrap_err();
    assert_eq!(err, CsvError::FieldCountMismatch { expected: 2, found: 1, line: 2 });
}

#[test]
fn characters_of_every_width() {
    let text = "\u{e9}t\u{e9},\u{65e5}\u{672c},\u{1f600}\n\"\u{df}\",\u{20ac},z";
    let tokens = parse_text(text).unwrap();
    assert_eq!(
        values(&tokens),
        rows(&[&["\u{e9}t\u{e9}", "\u{65e5}\u{672c}", "\u{1f600}"], &["\u{df}", "\u{20ac}", "z"]])
    );
    let tokens = CsvParser::new(text.as_bytes().to_vec()).parse().unwrap();
    assert_eq!(tokens.len(), 2);
    assert_eq!(tokens[1].value[1], "\u{20ac}");
}

#[test]
fn tokens_carry_their_line_and_kind() {
    let tokens = parse_text("a\r\nb\r\n\"c\"\nd").unwrap();
    assert_eq!(tokens.len(), 4);
    for (i, token) in tokens.iter().enumerate() {
        assert_eq!(token.line, i as u64 + 1);
        assert_eq!(token.token_type, TokenType::Record);
    }
}

#[test]
fn the_header_flag_changes_no_token() {
    let with = CsvParser::from_string("h1,h2\n1,2\n".to_string()).with_header(true).parse().unwrap();
    let without =
        CsvParser::from_string("h1,h2\n1,2\n".to_string()).with_header(false).parse().unwrap();
    assert_eq!(values(&with), values(&without));
    assert_eq!(values(&with), rows(&[&["h1", "h2"], &["1", "2"]]));
}

#[test]
fn scan_and_parse_agree() {
    let scanned = CsvParser::from_string("a,b\nc,d".to_string()).scan().unwrap();
    let parsed = CsvParser::from_string("a,b\nc,d".to_string()).parse().unwrap();
    assert_eq!(values(&scanned), values(&parsed));
}

#[test]
fn a_second_scan_returns_the_same_tokens() {
    let mut parser = CsvParser::from_string("a,b\nc,d\n".to_string());
    let first = parser.scan().unwrap();
    let second = parser.scan().unwrap();
    assert_eq!(values(&first), rows(&[&["a", "b"], &["c", "d"]]));
    assert_eq!(values(&first), values(&second));
}

#[test]
fn parser_quoted_fields_with_commas() {
    let tokens = parse_text("\"field, with, commas\",2,3").unwrap();
    assert_eq!(tokens.len(), 1);
    assert_eq!(tokens[0].value, vec!["field, with, commas", "2", "3"]);
}

#[test]
fn parser_single_field() {
    let tokens = parse_text("singlefield").unwrap();
    assert_eq!(tokens.len(), 1);
    assert_eq!(tokens[0].value, vec!["singlefield"]);
}

#[test]
fn parser_quoted_fields_with_newline() {
    let tokens = parse_text("\"field\nwith\nnewlines\",2,3").unwrap();
    assert_eq!(tokens.len(), 1);
    assert_eq!(tokens[0].value, vec!["field\nwith\nnewlines", "2", "3"]);
}

#[test]
fn parser_escaped_quotes() {
    let tokens = parse_text("\"field with \"\"escaped quotes\"\"\",2,3").unwrap();
    assert_eq!(tokens.len(), 1);
    assert_eq!(tokens[0].value, vec!["field with \"escaped quotes\"", "2", "3"]);
}
