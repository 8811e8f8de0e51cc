use rust_csv_parser::text::{char_is_whitespace, leading_whitespace, to_string, trimmed};

fn chars(s: &str) -> Vec<char> {
    s.chars().collect()
}

#[test]
fn whitespace_is_what_the_standard_library_calls_whitespace() {
    for n in 0..=0x10FFFFu32 {
        if let Some(c) = char::from_u32(n) {
            assert_eq!(char_is_whitespace(c), c.is_whitespace());
        }
    }
}

#[test]
fn whitespace_examples() {
    assert!(char_is_whitespace(' '));
    assert!(char_is_whitespace('\t'));
    assert!(char_is_whitespace('\n'));
    assert!(char_is_whitespace('\r'));
    assert!(char_is_whitespace('\u{3000}'));
    assert!(!char_is_whitespace('a'));
    assert!(!char_is_whitespace(','));
    assert!(!char_is_whitespace('\u{200b}'));
}

#[test]
fn trimmed_is_trim() {
    for s in ["", " ", "   ", "a", " a", "a ", "  a b  ", "\t\u{3000}x\u{a0}\n", " \" ", "a  b"] {
        assert_eq!(to_string(&trimmed(&chars(s))), s.trim());
    }
}

#[test]
fn leading_whitespace_is_counted() {
    assert_eq!(leading_whitespace(&chars("  ab  c ")), 2);
    assert_eq!(leading_whitespace(&chars("    ")), 4);
    assert_eq!(leading_whitespace(&chars("")), 0);
    assert_eq!(leading_whitespace(&chars("a  ")), 0);
    assert_eq!(leading_whitespace(&chars("\u{2028}\t\u{85}x")), 3);
}

#[test]
fn string_of_characters() {
    assert_eq!(to_string(&chars("a,\u{e9}\u{1f600}")), "a,\u{e9}\u{1f600}");
    assert_eq!(to_string(&chars("")), "");
}
