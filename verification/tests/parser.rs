use bash_strings::emit_array;
use bash_strings::parse_array;
use bash_strings::parse_assoc;
use bash_strings::parse_indexed;
use bash_strings::parse_q_words;
use bash_strings::parse_scalar;
use bash_strings::BashCodec;
use bash_strings::BashVal;
use bash_strings::LinkedArr;
use bash_strings::QuotedNest;
use indexmap::IndexMap;

fn ix<I: IntoIterator<Item = (usize, &'static str)>>(it: I) -> IndexMap<usize, String> {
    it.into_iter().map(|(k, v)| (k, v.to_string())).collect()
}

fn ax<I: IntoIterator<Item = (&'static str, &'static str)>>(it: I) -> IndexMap<String, String> {
    it.into_iter()
        .map(|(k, v)| (k.to_string(), v.to_string()))
        .collect()
}

#[test]
fn scalar_canonical_forms() {
    assert_eq!(
        parse_scalar("'hello world'").unwrap(),
        "hello world"
    );
    assert_eq!(
        parse_scalar(r#""hello \$VAR""#).unwrap(),
        "hello $VAR"
    );
    assert_eq!(
        parse_scalar(r"$'a\nb'").unwrap(),
        "a\nb"
    );
    assert_eq!(parse_scalar("''").unwrap(), "");
}

#[test]
fn scalar_concat() {
    assert_eq!(parse_scalar("'a''b'").unwrap(), "ab");
}

#[test]
fn scalar_rejects_non_canonical() {
    assert!(parse_scalar("").is_err());
    assert!(parse_scalar("'a' 'b'").is_err());
    assert!(parse_scalar(" 'a'").is_err());
}

#[test]
fn q_words_canonical() {
    assert_eq!(
        parse_q_words("'a' 'b'").unwrap(),
        vec!["a", "b"]
    );
    assert_eq!(
        parse_q_words("'a b' $'c\\nd'").unwrap(),
        vec!["a b", "c\nd"]
    );
    assert_eq!(
        parse_q_words("").unwrap(),
        Vec::<String>::new()
    );
}

#[test]
fn q_words_rejects_non_canonical_spacing() {
    assert!(parse_q_words("'a'  'b'").is_err());
    assert!(parse_q_words(" 'a' 'b'").is_err());
    assert!(parse_q_words("'a' 'b' ").is_err());
}

#[test]
fn ansi_c_escapes() {
    assert_eq!(
        parse_q_words(r"$'\t\r\\\''").unwrap(),
        vec!["\t\r\\'"]
    );
    assert_eq!(
        parse_q_words(r"$'\x41' $'\101'").unwrap(),
        vec!["A", "A"]
    );
}

#[test]
fn array_round_trips_and_needs_its_parentheses() {
    let words = vec!["a".to_string(), "b c".into(), "d\ne".into(), String::new()];

    assert_eq!(
        emit_array(&words),
        "('a' 'b c' $'d\\ne' '')"
    );
    assert_eq!(
        parse_array(&emit_array(&words)).unwrap(),
        words
    );
    assert_eq!(
        parse_array("()").unwrap(),
        Vec::<String>::new()
    );

    let bare = parse_array("'a' 'b'").expect_err("no parentheses");
    assert!(
        bare.message.contains("array literal"),
        "{}",
        bare.describe()
    );
}

/// At one dimension the two codecs write the same text, which is what
/// lets `parse_array` take no codec.
#[test]
fn one_dimension_is_the_same_under_either_codec() {
    let words = vec!["a".to_string(), "b c".into(), "2".into()];
    let value = BashVal::row(words.clone());

    assert_eq!(
        QuotedNest.emit_literal(&value),
        LinkedArr.emit_literal(&value)
    );
    assert_eq!(
        QuotedNest.emit_literal(&value),
        emit_array(&words)
    );
    assert_eq!(
        parse_array(&emit_array(&words)).unwrap(),
        words
    );
}

#[test]
fn indexed_canonical() {
    assert_eq!(
        parse_indexed("([0]='a' [1]='b')").unwrap(),
        ix([(0, "a"), (1, "b")])
    );
    assert_eq!(parse_indexed("()").unwrap(), ix([]));
    assert_eq!(
        parse_indexed(r#"([0]="a" [1]="b c" [2]=$'d\ne')"#).unwrap(),
        ix([(0, "a"), (1, "b c"), (2, "d\ne")])
    );
}

#[test]
fn indexed_sparse_ascending() {
    assert_eq!(
        parse_indexed(r#"([0]="zero" [2]="two" [5]="five")"#).unwrap(),
        ix([(0, "zero"), (2, "two"), (5, "five")])
    );
}

#[test]
fn indexed_rejects_non_canonical() {
    assert!(parse_indexed("").is_err());
    assert!(parse_indexed("[0]='a' [1]='b'").is_err());
    assert!(parse_indexed("([0]=)").is_err());
    assert!(parse_indexed("([0]='a'").is_err());
}

#[test]
fn assoc_canonical() {
    assert_eq!(
        parse_assoc(r#"([k]="v")"#).unwrap(),
        ax([("k", "v")])
    );
    assert_eq!(parse_assoc("()").unwrap(), ax([]));
    assert_eq!(
        parse_assoc(r#"([foo]="1" [c]="3" )"#).unwrap(),
        ax([("foo", "1"), ("c", "3")])
    );
}

#[test]
fn assoc_quoted_key_ansi_value() {
    assert_eq!(
        parse_assoc(r#"([foo]="1" ["k 2"]=$'v\n2' [c]="3" )"#).unwrap(),
        ax([("foo", "1"), ("k 2", "v\n2"), ("c", "3")])
    );
}

#[test]
fn assoc_rejects_non_canonical() {
    assert!(parse_assoc("").is_err());
    assert!(parse_assoc("[k]='v'").is_err());
    assert!(parse_assoc("([k]=)").is_err());
}

/// Bash prints a byte it cannot show as up to three octal digits, and the
/// widest it ever prints is `\377`. Anything above that is not its output
/// and is refused rather than wrapped.
#[test]
fn an_octal_escape_stops_at_a_byte() {
    assert_eq!(
        parse_q_words(r"$'\377'").unwrap(),
        vec!["\u{ff}"]
    );
    assert_eq!(
        parse_q_words(r"$'\0'").unwrap(),
        vec!["\0"]
    );
    assert!(parse_q_words(r"$'\400'").is_err());
    assert!(parse_q_words(r"$'\777'").is_err());
}

/// A subscript is a machine integer. One too wide to be one was never
/// printed by bash, and is an error rather than a panic.
#[test]
fn a_subscript_too_wide_to_be_one_is_refused() {
    assert!(parse_indexed("([99999999999999999999999]='a')").is_err());
    assert_eq!(
        parse_indexed(&format!("([{}]='a')", usize::MAX)).unwrap(),
        ix([(usize::MAX, "a")]),
        "the widest one that is still an index"
    );
}

/// The snippet in an error is cut to character boundaries, so an input
/// with multi-byte characters still reports one.
#[test]
fn an_error_reports_the_text_around_it() {
    let long = format!("'{}' trailing", "é".repeat(30));
    let failed = parse_scalar(&long).expect_err("trailing input");

    assert!(!failed.snippet.is_empty(), "{}", failed.describe());
    assert!(
        long.contains(&failed.snippet),
        "{}",
        failed.describe()
    );
}

// ---- further cases ---------------------------------------------------------------

#[test]
fn a_refusal_reads_with_its_offset_message_and_snippet() {
    let failed = parse_array("'a' 'b'").unwrap_err();
    assert_eq!(failed.at, 0);
    assert_eq!(failed.message, "expected a (\u{2026}) array literal");
    assert_eq!(failed.snippet, "'a' 'b'");
    assert_eq!(
        failed.describe(),
        "bash value parse error at byte 0: expected a (\u{2026}) array literal \u{2014} near \"'a' 'b'\""
    );
}

#[test]
fn a_subscript_that_is_no_index_names_its_digits() {
    let failed = parse_indexed("([99999999999999999999999]='a')").unwrap_err();
    assert_eq!(failed.message, "subscript \"99999999999999999999999\" is not an index");
    assert_eq!(failed.at, 25);
}

#[test]
fn trailing_newlines_are_not_part_of_a_value() {
    assert_eq!(parse_scalar("'a'\n\n").unwrap(), "a");
    assert_eq!(parse_array("('a' 'b')\n").unwrap(), vec!["a", "b"]);
    assert_eq!(parse_indexed("([1]='x')\n").unwrap(), ix([(1, "x")]));
}

#[test]
fn unicode_escapes_take_up_to_their_digit_count() {
    assert_eq!(parse_scalar(r"$'\u00e9'").unwrap(), "é");
    assert_eq!(parse_scalar(r"$'\U0001F600'").unwrap(), "\u{1F600}");
    assert_eq!(parse_scalar(r"$'\u41'").unwrap(), "A");
    assert!(parse_scalar(r"$'\ud800'").is_err());
    assert!(parse_scalar(r"$'\u'").is_err());
}

#[test]
fn a_duplicate_key_keeps_its_first_place_and_its_last_value() {
    assert_eq!(
        parse_assoc("([a]='1' [b]='2' [a]='3')").unwrap(),
        ax([("a", "3"), ("b", "2")])
    );
}

#[test]
fn an_array_drops_the_subscripts_bash_writes() {
    assert_eq!(
        parse_array(r#"([0]="a b" [1]=$'x\ty')"#).unwrap(),
        vec!["a b".to_string(), "x\ty".to_string()]
    );
    assert_eq!(parse_array("([0]='a' 'b' [7]='')").unwrap(), vec!["a", "b", ""]);
    assert_eq!(parse_array("('[0]=a')").unwrap(), vec!["[0]=a"]);
}

#[test]
fn an_array_refusal_stands_where_it_stopped_in_the_text_given() {
    let failed = parse_array("('a'  'b')").unwrap_err();
    assert_eq!(failed.at, 5);
    assert_eq!(failed.snippet, "('a'  'b')");
    let failed = parse_array("  'a'").unwrap_err();
    assert_eq!(failed.at, 2);
    assert_eq!(failed.message, "expected a (\u{2026}) array literal");
    let failed = parse_array(" ([x]='a')").unwrap_err();
    assert_eq!(failed.at, 3);
    assert_eq!(failed.message, "expected a subscript");
    let failed = parse_array("([0]'a')").unwrap_err();
    assert_eq!(failed.at, 4);
    assert_eq!(failed.message, "expected \"=\"");
    let failed = parse_array("(é  'a')").unwrap_err();
    assert_eq!(failed.at, 4);
    assert_eq!(failed.message, "expected a word");
}
