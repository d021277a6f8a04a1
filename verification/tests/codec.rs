use bash_strings::BashCodec;
use bash_strings::BashVal;
use bash_strings::CodecParseError;
use bash_strings::LinkedArr;
use bash_strings::QuotedNest;
use bash_strings::Schema;

fn row(words: &[&str]) -> BashVal {
    BashVal::row(words.iter().map(|word| word.to_string()).collect())
}

fn cmd(args: &[&str]) -> BashVal {
    BashVal::cmd(args.iter().map(|arg| arg.to_string()).collect())
}

fn arr(items: Vec<BashVal>) -> BashVal {
    BashVal::Arr(items)
}

fn words(items: &[&str]) -> Vec<String> {
    items.iter().map(|word| word.to_string()).collect()
}

/// Each inner array becomes one quoted word at the outer level, and comes
/// back through the schema that says how deep to look.
#[test]
fn quoted_nest_wraps_a_level_per_dimension() {
    let two_d = arr(vec![row(&["a", "b"]), row(&["c", "d", "e"])]);

    assert_eq!(QuotedNest.emit(&two_d), words(&["('a' 'b')", "('c' 'd' 'e')"]));
    assert_eq!(QuotedNest.parse(&QuotedNest.emit(&two_d), &Schema::n_d(2)).unwrap(), two_d);
}

#[test]
fn linked_arr_prefixes_each_group_with_its_width() {
    assert_eq!(
        LinkedArr.emit(&arr(vec![row(&["a", "b"]), row(&["c", "d", "e"])])),
        words(&["2", "a", "b", "3", "c", "d", "e"])
    );
    assert_eq!(
        LinkedArr.emit(&arr(vec![arr(vec![row(&["a", "b"]), row(&["c"])])])),
        words(&["5", "2", "a", "b", "1", "c"])
    );
    assert_eq!(
        LinkedArr.emit(&arr(vec![arr(vec![row(&["a", "b"])]), arr(vec![row(&["c"])])])),
        words(&["3", "2", "a", "b", "2", "1", "c"])
    );
}

#[test]
fn linked_arr_round_trips_at_three_dimensions() {
    let three_d =
        arr(vec![arr(vec![row(&["a", "b"]), row(&["c"])]), arr(vec![row(&["d", "e"])])]);

    assert_eq!(LinkedArr.parse(&LinkedArr.emit(&three_d), &Schema::n_d(3)).unwrap(), three_d);
}

#[test]
fn qn_emit_1d() {
    assert_eq!(QuotedNest.emit(&cmd(&["a", "b"])), words(&["a", "b"]));
}

#[test]
fn qn_emit_2d() {
    let v = arr(vec![cmd(&["a", "b"]), cmd(&["c", "d", "e"])]);
    assert_eq!(QuotedNest.emit(&v), words(&["('a' 'b')", "('c' 'd' 'e')"]));
}

#[test]
fn qn_roundtrip_2d() {
    let v = arr(vec![cmd(&["AspectRequire", "env", "mod_a"]), cmd(&["Accumulate", "mod_b"])]);
    let w = QuotedNest.emit(&v);
    assert_eq!(QuotedNest.parse(&w, &Schema::n_d(2)).unwrap(), v);
}

#[test]
fn la_emit_1d() {
    assert_eq!(LinkedArr.emit(&cmd(&["a", "b"])), words(&["a", "b"]));
}

#[test]
fn la_emit_2d() {
    let v = arr(vec![cmd(&["a", "b"]), cmd(&["c", "d", "e"])]);
    assert_eq!(LinkedArr.emit(&v), words(&["2", "a", "b", "3", "c", "d", "e"]));
}

#[test]
fn la_emit_3d_one_outer() {
    let v = arr(vec![arr(vec![cmd(&["a", "b"]), cmd(&["c"])])]);
    assert_eq!(LinkedArr.emit(&v), words(&["5", "2", "a", "b", "1", "c"]));
}

#[test]
fn la_emit_3d_two_outers() {
    let v = arr(vec![arr(vec![cmd(&["a", "b"])]), arr(vec![cmd(&["c"])])]);
    assert_eq!(LinkedArr.emit(&v), words(&["3", "2", "a", "b", "2", "1", "c"]));
}

#[test]
fn la_roundtrip_2d() {
    let v = arr(vec![cmd(&["AspectRequire", "env", "mod_a"]), cmd(&["Accumulate", "mod_b"])]);
    let w = LinkedArr.emit(&v);
    assert_eq!(LinkedArr.parse(&w, &Schema::n_d(2)).unwrap(), v);
}

#[test]
fn la_roundtrip_3d() {
    let v = arr(vec![arr(vec![cmd(&["a", "b"]), cmd(&["c"])]), arr(vec![cmd(&["d", "e"])])]);
    let w = LinkedArr.emit(&v);
    assert_eq!(LinkedArr.parse(&w, &Schema::n_d(3)).unwrap(), v);
}

// ---- further cases ---------------------------------------------------------------

#[test]
fn the_documented_linked_literal_reads_back() {
    let value = arr(vec![row(&["a", "b"]), row(&["c"])]);
    let text = LinkedArr.emit_literal(&value);

    assert_eq!(text, "('2' 'a' 'b' '1' 'c')");
    assert_eq!(LinkedArr.parse_literal(&text, &Schema::n_d(2)).unwrap(), value);
}

#[test]
fn quoted_nest_round_trips_at_three_dimensions() {
    let three_d =
        arr(vec![arr(vec![row(&["a b", "it's"]), row(&["c"])]), arr(vec![row(&["d\ne"])])]);
    let text = QuotedNest.emit_literal(&three_d);

    assert_eq!(QuotedNest.parse_literal(&text, &Schema::n_d(3)).unwrap(), three_d);
}

#[test]
fn reading_shallower_than_written_peels_a_level() {
    let three_d = arr(vec![arr(vec![row(&["a", "b"]), row(&["c"])])]);
    let words_out = QuotedNest.emit(&three_d);

    let inner = vec![
        bash_strings::emit_array(&words(&["a", "b"])),
        bash_strings::emit_array(&words(&["c"])),
    ];
    assert_eq!(words_out, vec![bash_strings::emit_array(&inner)]);
    let peeled = QuotedNest.parse(&words_out, &Schema::n_d(2)).unwrap();
    assert_eq!(peeled, arr(vec![row(&["('a' 'b')", "('c')"])]));
}

#[test]
fn empty_arrays_round_trip_under_either_codec() {
    let empty = BashVal::arr();
    assert_eq!(QuotedNest.emit_literal(&empty), "()");
    assert_eq!(LinkedArr.emit_literal(&empty), "()");
    assert_eq!(QuotedNest.parse_literal("()", &Schema::one_d()).unwrap(), BashVal::arr());
    assert_eq!(LinkedArr.parse_literal("()", &Schema::two_d()).unwrap(), BashVal::arr());

    let holding_empty = arr(vec![BashVal::arr(), row(&["x"])]);
    let w = LinkedArr.emit(&holding_empty);
    assert_eq!(w, words(&["0", "1", "x"]));
    assert_eq!(LinkedArr.parse(&w, &Schema::n_d(2)).unwrap(), holding_empty);
}

#[test]
fn a_scalar_schema_wants_exactly_one_word() {
    assert_eq!(
        QuotedNest.parse(&words(&["only"]), &Schema::Scalar).unwrap(),
        BashVal::s("only".to_string())
    );
    assert_eq!(
        QuotedNest.parse(&words(&["a", "b"]), &Schema::Scalar),
        Err(CodecParseError::ExpectedScalar)
    );
    assert_eq!(LinkedArr.parse(&[], &Schema::n_d(0)), Err(CodecParseError::ExpectedScalar));
}

#[test]
fn a_width_that_is_no_number_is_a_layout_error() {
    let failed = LinkedArr.parse(&words(&["x", "a"]), &Schema::n_d(2)).unwrap_err();
    assert_eq!(
        failed,
        CodecParseError::LayoutError("length prefix not numeric at pos 0: \"x\"".to_string())
    );
    assert_eq!(failed.describe(), "layout: length prefix not numeric at pos 0: \"x\"");
}

#[test]
fn a_width_takes_a_plus_sign_as_str_parse_does() {
    assert_eq!(
        LinkedArr.parse(&words(&["+2", "a", "b"]), &Schema::n_d(2)).unwrap(),
        arr(vec![row(&["a", "b"])])
    );
    assert!(LinkedArr.parse(&words(&["+", "a"]), &Schema::n_d(2)).is_err());
    assert!(LinkedArr.parse(&words(&["-1", "a"]), &Schema::n_d(2)).is_err());
}

#[test]
fn a_group_wider_than_what_is_left_is_a_layout_error() {
    assert_eq!(
        LinkedArr.parse(&words(&["3", "a", "b"]), &Schema::n_d(2)),
        Err(CodecParseError::LayoutError("group claims 3 words; only 2 available".to_string()))
    );
    assert_eq!(
        LinkedArr.parse(&words(&["1", "a", "999", "b"]), &Schema::n_d(2)),
        Err(CodecParseError::LayoutError("group claims 999 words; only 1 available".to_string()))
    );
}

#[test]
fn a_literal_needs_its_parentheses() {
    let failed = QuotedNest.parse_literal("'a' 'b'", &Schema::n_d(1)).unwrap_err();
    assert_eq!(
        failed,
        CodecParseError::LayoutError("expected (...) array literal: \"'a' 'b'\"".to_string())
    );
}

#[test]
fn a_literal_whose_words_do_not_read_is_a_word_error() {
    match QuotedNest.parse_literal("('a' 'b)", &Schema::n_d(1)) {
        Err(CodecParseError::Word(cause)) => {
            assert_eq!(cause.at, 6);
            assert!(cause.message.contains("unterminated"));
        }
        other => panic!("expected a word error, got {other:?}"),
    }
}

#[test]
fn words_and_rows_walk_a_literal_down_to_strings() {
    assert_eq!(QuotedNest.words("('a' 'b c')").unwrap(), words(&["a", "b c"]));
    assert_eq!(
        QuotedNest.rows("(\"('a' 'b')\" \"('c')\")").unwrap(),
        vec![words(&["a", "b"]), words(&["c"])]
    );
    assert_eq!(
        LinkedArr.rows("('2' 'a' 'b' '1' 'c')").unwrap(),
        vec![words(&["a", "b"]), words(&["c"])]
    );
    assert_eq!(
        QuotedNest.rows("(\"'a' 'b'\")").unwrap(),
        vec![words(&["a", "b"])]
    );
}

#[test]
fn rows_read_inner_words_written_without_parentheses() {
    assert_eq!(
        QuotedNest.rows("(\"'a' 'b'\" \"'c'\")").unwrap(),
        vec![words(&["a", "b"]), words(&["c"])]
    );
    assert!(QuotedNest.rows("(\"'a\")").is_err());
}

#[test]
fn a_value_of_another_shape_has_no_words_or_rows() {
    assert_eq!(BashVal::s("x".to_string()).words(), None);
    assert_eq!(arr(vec![row(&["a"])]).words(), None);
    assert_eq!(row(&["a"]).rows(), None);
    assert_eq!(row(&["a", "b"]).words(), Some(words(&["a", "b"])));
    assert_eq!(arr(vec![row(&["a"]), row(&[])]).rows(), Some(vec![words(&["a"]), vec![]]));
}

#[test]
fn push_adds_at_the_end() {
    let v = BashVal::arr().push(BashVal::s("a".to_string())).push(row(&["b"]));
    assert_eq!(v, arr(vec![BashVal::Str("a".to_string()), row(&["b"])]));
}

#[test]
fn schemas_count_their_levels() {
    assert_eq!(Schema::n_d(0), Schema::Scalar);
    assert_eq!(Schema::n_d(1), Schema::one_d());
    assert_eq!(Schema::n_d(2), Schema::two_d());
    assert_eq!(Schema::n_d(2), Schema::Arr(Box::new(Schema::Arr(Box::new(Schema::Scalar)))));
}

#[test]
fn a_parse_error_converts_into_a_word_error() {
    let cause = bash_strings::parse_scalar("'a").unwrap_err();
    let converted: CodecParseError = cause.clone().into();
    assert_eq!(converted, CodecParseError::Word(cause));
}

#[test]
fn a_clone_is_equal() {
    let v = arr(vec![row(&["a", "b"]), arr(vec![row(&["c"])]), BashVal::s("d".to_string())]);
    assert_eq!(v.clone(), v);
    let s = Schema::n_d(3);
    assert_eq!(s.clone(), s);
}

#[test]
fn a_string_converts_into_a_scalar_value() {
    assert_eq!(BashVal::from("x".to_string()), BashVal::Str("x".to_string()));
}

#[test]
fn a_width_past_any_machine_integer_sum_is_refused() {
    assert_eq!(
        LinkedArr.parse_literal("('18446744073709551615' 'a')", &Schema::n_d(2)),
        Err(CodecParseError::LayoutError(
            "group claims 18446744073709551615 words; only 1 available".to_string()
        ))
    );
    assert!(LinkedArr.rows("('18446744073709551615' 'a')").is_err());
}
