use bash_strings::primitives::encode_scalar;
use bash_strings::primitives::parse_ansi_c_body;
use bash_strings::primitives::parse_one_word;
use bash_strings::primitives::parse_single_quoted_body;
use bash_strings::primitives::parse_words;
use bash_strings::primitives::ParseError;

#[test]
fn encode_scalar_quotes_simply_where_it_can() {
    assert_eq!(encode_scalar(""), "''");
    assert_eq!(encode_scalar("abc"), "'abc'");
    assert_eq!(encode_scalar("a b"), "'a b'");
    assert_eq!(encode_scalar("café"), "'café'");
}

#[test]
fn encode_scalar_escapes_quotes_backslashes_and_controls() {
    assert_eq!(encode_scalar("it's"), "$'it\\'s'");
    assert_eq!(encode_scalar("a\\b"), "$'a\\\\b'");
    assert_eq!(encode_scalar("a\nb\tc\r"), "$'a\\nb\\tc\\r'");
    assert_eq!(encode_scalar("\x07\x08\x1b\x0c\x0b"), "$'\\a\\b\\e\\f\\v'");
    assert_eq!(encode_scalar("\x01\x1f\x7f"), "$'\\x01\\x1f\\x7f'");
}

#[test]
fn encoded_words_read_back_whole() {
    for s in ["", "plain", "it's", "a\\b", "x\ny", "\x01\x7f", "é\t'", "\x1b[0m"] {
        let encoded = encode_scalar(s);
        assert_eq!(parse_one_word(&encoded).unwrap(), (s.to_string(), ""));
    }
}

#[test]
fn one_word_joins_adjacent_forms_and_stops_at_a_space() {
    assert_eq!(parse_one_word("'a'b$'\\n'\\ c rest").unwrap(), ("ab\n c".to_string(), " rest"));
    assert_eq!(parse_one_word("(x)").unwrap(), (String::new(), "(x)"));
    assert_eq!(parse_one_word("abc\\").unwrap(), ("abc".to_string(), "\\"));
}

#[test]
fn one_word_passes_on_a_refusal_from_inside_a_quote() {
    assert_eq!(parse_one_word("'abc"), Err(ParseError::UnterminatedSingleQuote));
    assert_eq!(parse_one_word("$'abc"), Err(ParseError::UnterminatedAnsiCQuote));
}

#[test]
fn single_quoted_body_runs_to_the_next_quote() {
    assert_eq!(parse_single_quoted_body("abc'def").unwrap(), ("abc".to_string(), "def"));
    assert_eq!(parse_single_quoted_body("'").unwrap(), (String::new(), ""));
    assert_eq!(parse_single_quoted_body("abc"), Err(ParseError::UnterminatedSingleQuote));
}

#[test]
fn ansi_c_body_reads_the_full_escape_set() {
    assert_eq!(parse_ansi_c_body("a\\tb'rest").unwrap(), ("a\tb".to_string(), "rest"));
    assert_eq!(
        parse_ansi_c_body("\\a\\b\\e\\E\\f\\n\\r\\t\\v\\\\\\'\\\"\\?'").unwrap(),
        ("\x07\x08\x1b\x1b\x0c\n\r\t\x0b\\'\"?".to_string(), "")
    );
    assert_eq!(parse_ansi_c_body("\\x41\\x4a'").unwrap(), ("AJ".to_string(), ""));
    assert_eq!(parse_ansi_c_body("\\u00e9\\U0001F600'").unwrap(), ("é\u{1F600}".to_string(), ""));
    assert_eq!(parse_ansi_c_body("\\101\\0\\1234'").unwrap(), ("A\0S4".to_string(), ""));
}

#[test]
fn ansi_c_body_refuses_what_it_cannot_read() {
    assert_eq!(parse_ansi_c_body("abc"), Err(ParseError::UnterminatedAnsiCQuote));
    assert_eq!(parse_ansi_c_body("abc\\"), Err(ParseError::UnterminatedAnsiCQuote));
    assert_eq!(
        parse_ansi_c_body("\\q'"),
        Err(ParseError::InvalidEscapeSequence("\\q".to_string()))
    );
    assert_eq!(
        parse_ansi_c_body("é\\x'"),
        Err(ParseError::InvalidHexEscape("\\x at position 2: no hex digits".to_string()))
    );
    assert_eq!(
        parse_ansi_c_body("ab\\u'"),
        Err(ParseError::InvalidUnicodeEscape("\\u at position 2: no hex digits".to_string()))
    );
    assert_eq!(
        parse_ansi_c_body("\\U'"),
        Err(ParseError::InvalidUnicodeEscape("\\U at position 0: no hex digits".to_string()))
    );
    assert_eq!(
        parse_ansi_c_body("\\ud800'"),
        Err(ParseError::InvalidUnicodeEscape("\\ud800".to_string()))
    );
    assert_eq!(
        parse_ansi_c_body("\\U00110000'"),
        Err(ParseError::InvalidUnicodeEscape("\\U00110000".to_string()))
    );
    assert_eq!(
        parse_ansi_c_body("\\777'"),
        Err(ParseError::InvalidOctalEscape("\\777".to_string()))
    );
}

#[test]
fn words_are_read_one_after_another() {
    assert_eq!(
        parse_words("  'a' 'b c'   $'d\\ne' plain  ").unwrap(),
        vec!["a".to_string(), "b c".to_string(), "d\ne".to_string(), "plain".to_string()]
    );
    assert_eq!(parse_words("   ").unwrap(), Vec::<String>::new());
    assert_eq!(
        parse_words("'a' $'\\q'"),
        Err(ParseError::InvalidEscapeSequence("\\q".to_string()))
    );
}

#[test]
fn a_word_refusal_reads_as_its_kind_and_detail() {
    assert_eq!(ParseError::UnterminatedSingleQuote.describe(), "unterminated single quote");
    assert_eq!(ParseError::UnterminatedAnsiCQuote.describe(), "unterminated $'...' quote");
    assert_eq!(
        ParseError::InvalidOctalEscape("\\777".to_string()).describe(),
        "invalid octal escape: \\777"
    );
    assert_eq!(
        ParseError::TrailingContent("x".to_string()).describe(),
        "trailing content: x"
    );
}

#[test]
fn non_ascii_characters_are_word_text() {
    assert_eq!(parse_one_word("ś").unwrap(), ("ś".to_string(), ""));
    assert_eq!(parse_one_word("żółw x").unwrap(), ("żółw".to_string(), " x"));
    assert_eq!(parse_one_word("a\u{a0}b").unwrap(), ("a\u{a0}b".to_string(), ""));
    assert_eq!(parse_words("'a' ś ɛ").unwrap(), vec!["a".to_string(), "ś".to_string(), "ɛ".to_string()]);
}

#[test]
fn words_refuse_text_where_no_word_starts() {
    assert_eq!(parse_words("x("), Err(ParseError::TrailingContent("(".to_string())));
    assert_eq!(parse_words("'a' ]"), Err(ParseError::TrailingContent("]".to_string())));
    assert_eq!(parse_words("a\\"), Err(ParseError::TrailingContent("\\".to_string())));
    assert_eq!(parse_words("  "), Ok(vec![]));
}

#[test]
fn an_ansi_c_body_reads_back_what_the_escaper_wrote() {
    for s in ["it's", "a\\b", "x\ny\r\t", "\x07\x08\x1b\x0c\x0b", "\x01\x1f\x7f", "é'"] {
        let encoded = encode_scalar(s);
        assert!(encoded.starts_with("$'"));
        assert_eq!(parse_ansi_c_body(&encoded[2..]).unwrap(), (s.to_string(), ""));
    }
}
