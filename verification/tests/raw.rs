use bash_strings::primitives::ParseError;
use bash_strings::BashRaw;
use bash_strings::ConversionError;
use indexmap::IndexMap;

fn words(items: &[&str]) -> Vec<String> {
    items.iter().map(|word| word.to_string()).collect()
}

fn entries(items: &[(&str, &str)]) -> IndexMap<String, String> {
    items.iter().map(|(k, v)| (k.to_string(), v.to_string())).collect()
}

#[test]
fn builders_make_each_shape() {
    assert_eq!(BashRaw::string("x".to_string()), BashRaw::String("x".to_string()));
    assert_eq!(
        BashRaw::array().arg("a".to_string()).args(words(&["b", "c"])),
        BashRaw::Array(words(&["a", "b", "c"]))
    );
    assert_eq!(
        BashRaw::assoc()
            .put("k".to_string(), "1".to_string())
            .put("j".to_string(), "2".to_string())
            .put("k".to_string(), "3".to_string()),
        BashRaw::AssocArray(entries(&[("k", "3"), ("j", "2")]))
    );
}

#[test]
fn a_shape_converts_into_what_it_holds_and_nothing_else() {
    assert_eq!(BashRaw::String("x".to_string()).into_string(), Ok("x".to_string()));
    assert_eq!(BashRaw::Array(words(&["a"])).into_array(), Ok(words(&["a"])));
    assert_eq!(
        BashRaw::AssocArray(entries(&[("k", "v")])).into_assoc(),
        Ok(entries(&[("k", "v")]))
    );
    let wrong = BashRaw::Array(vec![]).into_string().unwrap_err();
    assert_eq!(wrong, ConversionError::WrongVariant { expected: "String", got: "Array" });
    assert_eq!(wrong.describe(), "BashRaw conversion: expected variant String, got Array");
    assert_eq!(
        BashRaw::String(String::new()).into_assoc(),
        Err(ConversionError::WrongVariant { expected: "AssocArray", got: "String" })
    );
    assert_eq!(
        BashRaw::AssocArray(IndexMap::new()).into_array(),
        Err(ConversionError::WrongVariant { expected: "Array", got: "AssocArray" })
    );
}

#[test]
fn a_shape_lends_what_it_holds() {
    let s = BashRaw::String("x".to_string());
    assert_eq!(s.as_string(), Ok("x"));
    assert!(s.as_array().is_err());
    let a = BashRaw::Array(words(&["a", "b"]));
    assert_eq!(a.as_array().unwrap(), &words(&["a", "b"])[..]);
    assert_eq!(
        a.as_assoc(),
        Err(ConversionError::WrongVariant { expected: "AssocArray", got: "Array" })
    );
    let m = BashRaw::AssocArray(entries(&[("k", "v")]));
    assert_eq!(m.as_assoc().unwrap(), &entries(&[("k", "v")]));
    assert_eq!(m.as_string(), Err(ConversionError::WrongVariant { expected: "String", got: "AssocArray" }));
}

#[test]
fn each_shape_has_its_bash_literal() {
    assert_eq!(BashRaw::String("it's".to_string()).to_bash_literal(), "$'it\\'s'");
    assert_eq!(BashRaw::String(String::new()).to_bash_literal(), "''");
    assert_eq!(BashRaw::Array(words(&["a", "b c"])).to_bash_literal(), "('a' 'b c')");
    assert_eq!(BashRaw::Array(vec![]).to_bash_literal(), "()");
    assert_eq!(
        BashRaw::AssocArray(entries(&[("k", "v"), ("k 2", "v\n2")])).to_bash_literal(),
        "(['k']='v' ['k 2']=$'v\\n2')"
    );
}

#[test]
fn an_array_packs_into_one_word_and_back() {
    let a = BashRaw::Array(words(&["a", "b c", "it's", "x\ny", ""]));
    let packed = a.pack_as_string();
    assert_eq!(BashRaw::Array(words(&["a"])).pack_as_string(), "$'(\\'a\\')'");
    assert_eq!(BashRaw::unpack_from_string(&packed).unwrap(), a);
}

#[test]
fn every_shape_packs_into_one_word_and_back() {
    let shapes = [
        BashRaw::String("x".to_string()),
        BashRaw::String(String::new()),
        BashRaw::String("(a)".to_string()),
        BashRaw::String("it's\n".to_string()),
        BashRaw::Array(vec![]),
        BashRaw::Array(words(&["[a]=b", "c"])),
        BashRaw::AssocArray(entries(&[("k", "v"), ("k 2", "it's\n"), ("", "")])),
    ];
    for shape in shapes {
        let packed = shape.pack_as_string();
        assert_eq!(BashRaw::unpack_from_string(&packed).unwrap(), shape);
    }
    assert_eq!(BashRaw::String("x".to_string()).pack_as_string(), "$'\\'x\\''");
}

#[test]
fn an_empty_assoc_unpacks_as_the_empty_array() {
    let packed = BashRaw::AssocArray(IndexMap::new()).pack_as_string();
    assert_eq!(packed, "'()'");
    assert_eq!(BashRaw::unpack_from_string(&packed).unwrap(), BashRaw::Array(vec![]));
}

#[test]
fn a_bash_literal_reads_back_as_its_shape() {
    assert_eq!(BashRaw::parse_bash_literal(" 'x' ").unwrap(), BashRaw::String("x".to_string()));
    assert_eq!(
        BashRaw::parse_bash_literal("('a' 'b')").unwrap(),
        BashRaw::Array(words(&["a", "b"]))
    );
    assert_eq!(
        BashRaw::parse_bash_literal("( ['k']='v' [$'a\\nb']='' ['k']='w' )").unwrap(),
        BashRaw::AssocArray(entries(&[("k", "w"), ("a\nb", "")]))
    );
    assert_eq!(
        BashRaw::parse_bash_literal("(['k']='v' 'x')"),
        Err(ParseError::InvalidFormat("expected [key]=value entry: \"'x'\"".to_string()))
    );
    assert_eq!(
        BashRaw::parse_bash_literal("(['k'] 'v')"),
        Err(ParseError::InvalidFormat("expected [key]=value entry: \"['k'] 'v'\"".to_string()))
    );
    assert_eq!(
        BashRaw::parse_bash_literal("(['k]='v')"),
        Err(ParseError::UnterminatedSingleQuote)
    );
}

#[test]
fn an_array_at_q_with_no_word_where_one_should_start_is_refused() {
    assert_eq!(
        BashRaw::parse_array_at_q("("),
        Err(ParseError::TrailingContent("(".to_string()))
    );
    assert_eq!(
        BashRaw::parse_array_at_q("'a' \"b\""),
        Err(ParseError::TrailingContent("\"b\"".to_string()))
    );
}

#[test]
fn a_scalar_at_q_is_one_word() {
    assert_eq!(BashRaw::parse_string_at_q("  'hello'  ").unwrap(), BashRaw::String("hello".to_string()));
    assert_eq!(BashRaw::parse_string_at_q("   ").unwrap(), BashRaw::String(String::new()));
    assert_eq!(BashRaw::parse_string_at_q("$'a\\tb'").unwrap(), BashRaw::String("a\tb".to_string()));
    assert_eq!(
        BashRaw::parse_string_at_q("'a' b"),
        Err(ParseError::TrailingContent("b".to_string()))
    );
}

#[test]
fn an_array_at_q_is_words() {
    assert_eq!(
        BashRaw::parse_array_at_q("'a' 'b c' $'d\\ne'").unwrap(),
        BashRaw::Array(words(&["a", "b c", "d\ne"]))
    );
    assert_eq!(
        BashRaw::parse_bash_literal_array(" ('a' 'b') ").unwrap(),
        BashRaw::Array(words(&["a", "b"]))
    );
    assert_eq!(
        BashRaw::parse_bash_literal_array("'a'"),
        Err(ParseError::InvalidFormat("expected (...) array literal: \"'a'\"".to_string()))
    );
}

#[test]
fn the_assoc_dump_is_a_pair_per_line() {
    assert_eq!(
        BashRaw::parse_assoc_at_q("'k' 'v'\r\n\n  'k 2' $'v\\n2'\n'k' 'w'\n").unwrap(),
        BashRaw::AssocArray(entries(&[("k", "w"), ("k 2", "v\n2")]))
    );
    assert_eq!(BashRaw::parse_assoc_at_q("").unwrap(), BashRaw::AssocArray(IndexMap::new()));
}

#[test]
fn an_assoc_line_needs_exactly_a_key_and_a_value() {
    assert_eq!(
        BashRaw::parse_assoc_at_q("'k'\n"),
        Err(ParseError::ExpectedPair("got key \"k\" with no value".to_string()))
    );
    assert_eq!(
        BashRaw::parse_assoc_at_q("'k' 'v' x"),
        Err(ParseError::TrailingContent("x".to_string()))
    );
    assert_eq!(
        BashRaw::parse_assoc_at_q("'k' 'v"),
        Err(ParseError::UnterminatedSingleQuote)
    );
}

#[test]
fn shapes_convert_from_what_they_hold() {
    assert_eq!(BashRaw::from("x".to_string()), BashRaw::String("x".to_string()));
    assert_eq!(BashRaw::from(words(&["a"])), BashRaw::Array(words(&["a"])));
    assert_eq!(
        BashRaw::from(entries(&[("k", "v")])),
        BashRaw::AssocArray(entries(&[("k", "v")]))
    );
}

#[test]
fn an_array_literal_reads_back_as_the_array() {
    let a = BashRaw::Array(words(&["a", "", "b c", "it's", "\x1b[0m"]));
    assert_eq!(BashRaw::parse_bash_literal_array(&a.to_bash_literal()).unwrap(), a);
}

#[test]
fn a_scalar_literal_reads_back_at_q() {
    for s in ["", "x", "it's", "tab\there", "back\\slash"] {
        let literal = BashRaw::String(s.to_string()).to_bash_literal();
        assert_eq!(BashRaw::parse_string_at_q(&literal).unwrap(), BashRaw::String(s.to_string()));
    }
}
