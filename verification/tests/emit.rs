use bash_strings::emit_assoc;
use bash_strings::emit_indexed;
use bash_strings::emit_q_words;
use bash_strings::emit_scalar;
use bash_strings::parse_assoc;
use bash_strings::parse_indexed;
use bash_strings::parse_q_words;
use bash_strings::parse_scalar;
use indexmap::IndexMap;

fn ix<I: IntoIterator<Item = (usize, &'static str)>>(it: I) -> IndexMap<usize, String> {
    it.into_iter().map(|(k, v)| (k, v.to_string())).collect()
}

fn ax<I: IntoIterator<Item = (&'static str, &'static str)>>(it: I) -> IndexMap<String, String> {
    it.into_iter()
        .map(|(k, v)| (k.to_string(), v.to_string()))
        .collect()
}

#[test]
fn scalar_forms() {
    assert_eq!(emit_scalar(""), "''");
    assert_eq!(emit_scalar("hello"), "'hello'");
    assert_eq!(emit_scalar("it's"), "'it'\\''s'");
    assert_eq!(emit_scalar("a\nb"), "$'a\\nb'");
    assert_eq!(emit_scalar("a\tb"), "$'a\\tb'");
}

#[test]
fn q_words_emit() {
    assert_eq!(emit_q_words(&[]), "");
    assert_eq!(
        emit_q_words(&["a".into(), "b c".into()]),
        "'a' 'b c'"
    );
}

#[test]
fn indexed_emit() {
    assert_eq!(emit_indexed(&ix([])), "()");
    assert_eq!(
        emit_indexed(&ix([(0, "a"), (5, "b c")])),
        "([0]='a' [5]='b c')"
    );
}

#[test]
fn assoc_emit() {
    assert_eq!(emit_assoc(&ax([])), "()");
    assert_eq!(
        emit_assoc(&ax([("k", "v"), ("k 2", "v 2")])),
        "(['k']='v' ['k 2']='v 2')"
    );
}

#[test]
fn roundtrip_scalar() {
    for s in ["", "simple", "it's", "a\nb", "a\tb", "c\x01d", "café"] {
        assert_eq!(
            parse_scalar(&emit_scalar(s)).unwrap(),
            s
        );
    }
}

#[test]
fn roundtrip_q_words() {
    let v = vec![
        "a".to_string(),
        "b c".to_string(),
        "d\ne".to_string(),
        "".to_string(),
    ];
    assert_eq!(
        parse_q_words(&emit_q_words(&v)).unwrap(),
        v
    );
}

#[test]
fn roundtrip_indexed() {
    let m = ix([(0, "a"), (2, "d\ne"), (5, "b c")]);
    assert_eq!(
        parse_indexed(&emit_indexed(&m)).unwrap(),
        m
    );
}

#[test]
fn roundtrip_assoc() {
    let m = ax([("foo", "1"), ("k 2", "v\n2")]);
    assert_eq!(parse_assoc(&emit_assoc(&m)).unwrap(), m);
}

// ---- further cases ---------------------------------------------------------------

#[test]
fn control_characters_take_their_escapes_or_three_octal_digits() {
    assert_eq!(emit_scalar("\x07\x08\x1b\x0c\x0b\r"), "$'\\a\\b\\E\\f\\v\\r'");
    assert_eq!(emit_scalar("a\x01b"), "$'a\\001b'");
    assert_eq!(emit_scalar("\x7f"), "$'\\177'");
    assert_eq!(emit_scalar("it's\n\\"), "$'it\\'s\\n\\\\'");
}

#[test]
fn every_control_character_round_trips() {
    for b in (0u8..0x20).chain([0x7f]) {
        let s = format!("x{}y", b as char);
        assert_eq!(parse_scalar(&emit_scalar(&s)).unwrap(), s);
    }
}

#[test]
fn a_later_insert_keeps_the_first_place() {
    let mut m = ix([(3, "a"), (1, "b")]);
    m.insert(3, "c".to_string());
    assert_eq!(emit_indexed(&m), "([3]='c' [1]='b')");
}

#[test]
fn the_widest_subscript_is_written_in_full() {
    let m = ix([(usize::MAX, "a")]);
    assert_eq!(emit_indexed(&m), format!("([{}]='a')", usize::MAX));
    assert_eq!(parse_indexed(&emit_indexed(&m)).unwrap(), m);
}
