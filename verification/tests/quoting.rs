use bash_strings::parse_with;
use bash_strings::Cursor;

/// The lexer stands on its own: a grammar with no bash value in it still
/// gets bash's word rules, its own stop characters, and one error type.
#[test]
fn a_grammar_over_other_syntax_builds_on_the_word_rules() {
    const STOPS: &[char] = &['=', ';', ' '];

    let settings = parse_with(
        r#"a='one two';b=$'x\ty';c=bare\ word"#,
        |c: &mut Cursor<'_>| {
            let mut out = Vec::new();
            loop {
                c.ws0();
                let key = c.word(STOPS)?;
                c.lit("=")?;
                out.push((key, c.word(STOPS)?));
                if !c.eat(";") {
                    return Ok(out);
                }
            }
        },
    )
    .unwrap();

    assert_eq!(
        settings,
        [
            ("a".to_string(), "one two".to_string()),
            ("b".to_string(), "x\ty".to_string()),
            ("c".to_string(), "bare word".to_string()),
        ]
    );
}

#[test]
fn a_grammar_that_stops_early_is_an_error() {
    let failed = parse_with("abc def", |c: &mut Cursor<'_>| c.word(&[' '])).expect_err("trailing input");

    assert_eq!(failed.at, 3);
    assert!(
        failed.message.contains("trailing"),
        "{}",
        failed.describe()
    );
}

/// An offset is where the parse actually stopped, not where it started.
#[test]
fn a_refusal_names_the_position_it_reached() {
    let failed = parse_with("'a' 'b", |c: &mut Cursor<'_>| {
        c.word(&[' '])?;
        c.lit(" ")?;
        c.word(&[' '])
    })
    .expect_err("unterminated");

    assert_eq!(
        failed.at, 6,
        "the end of the input, inside the open quote"
    );
    assert!(
        failed.message.contains("unterminated"),
        "{}",
        failed.describe()
    );
}

/// An octal escape takes at most three digits, so a fourth is text.
#[test]
fn an_octal_escape_leaves_what_it_does_not_take() {
    assert_eq!(
        parse_with(r"$'\1234'", |c: &mut Cursor<'_>| c.word(&[])).unwrap(),
        "\u{53}4"
    );
}

// ---- further cases ---------------------------------------------------------------

#[test]
fn a_cursor_reports_where_it_stands() {
    let seen = parse_with("key=é value", |c: &mut Cursor<'_>| {
        assert_eq!(c.at(), 0);
        assert_eq!(c.peek(), Some('k'));
        let key = c.take_while(|ch| ch.is_ascii_alphabetic());
        assert_eq!(key, "key");
        assert!(c.starts_with("="));
        assert!(!c.eat("x"));
        assert!(c.eat("="));
        assert_eq!(c.rest(), "é value");
        let value = c.word(&[' '])?;
        assert_eq!(c.at(), 6);
        c.ws0();
        assert_eq!(c.at(), 7);
        let last = c.word(&[])?;
        assert!(c.at_end());
        assert_eq!(c.peek(), None);
        Ok((key.to_string(), value, last))
    })
    .unwrap();
    assert_eq!(seen, ("key".to_string(), "é".to_string(), "value".to_string()));
}

#[test]
fn a_refusal_from_a_grammar_carries_its_message() {
    let failed = parse_with("abc", |c: &mut Cursor<'_>| -> Result<(), _> {
        c.eat("ab");
        Err(c.fail("no c wanted"))
    })
    .unwrap_err();
    assert_eq!(failed.at, 2);
    assert_eq!(failed.message, "no c wanted");
    assert_eq!(failed.snippet, "abc");
}

#[test]
fn a_literal_that_is_not_next_is_refused_where_it_was_wanted() {
    let failed = parse_with("ab", |c: &mut Cursor<'_>| {
        c.eat("a");
        c.lit("x")
    })
    .unwrap_err();
    assert_eq!(failed.at, 1);
    assert_eq!(failed.message, "expected \"x\"");
}

#[test]
fn double_quotes_keep_a_backslash_they_do_not_need() {
    assert_eq!(
        parse_with(r#""a\nb\$\"\\""#, |c: &mut Cursor<'_>| c.word(&[])).unwrap(),
        "a\\nb$\"\\"
    );
    assert_eq!(
        parse_with("$\"loc\"", |c: &mut Cursor<'_>| c.word(&[])).unwrap(),
        "loc"
    );
}

#[test]
fn control_escapes_and_hex_bytes_read_as_bash_reads_them() {
    assert_eq!(
        parse_with(r"$'\cA\x7\e\?\q'", |c: &mut Cursor<'_>| c.word(&[])).unwrap(),
        "\u{1}\u{7}\u{1b}?\\q"
    );
}

#[test]
fn what_was_read_and_what_is_left_make_up_the_input() {
    let input = "é=ß x";
    parse_with(input, |c: &mut Cursor<'_>| {
        assert_eq!(c.at() + c.rest().len(), input.len());
        let _ = c.take_while(|ch| ch != ' ');
        assert_eq!(c.at(), 5);
        assert_eq!(c.at() + c.rest().len(), input.len());
        assert_eq!(&input[c.at()..], c.rest());
        c.ws0();
        let _ = c.word(&[])?;
        assert_eq!(c.at() + c.rest().len(), input.len());
        Ok(())
    })
    .unwrap();
}
