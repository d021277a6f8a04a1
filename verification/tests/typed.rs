use bash_strings::parse_typed_value;
use bash_strings::primitives::ParseError;
use bash_strings::BashType;
use bash_strings::BashValue;
use indexmap::IndexMap;

fn words(items: &[&str]) -> Vec<String> {
    items.iter().map(|word| word.to_string()).collect()
}

fn entries(items: &[(&str, &str)]) -> IndexMap<String, String> {
    items.iter().map(|(k, v)| (k.to_string(), v.to_string())).collect()
}

#[test]
fn a_scalar_reads_as_one_word() {
    assert_eq!(
        parse_typed_value(BashType::Scalar, "  'hello world'\n").unwrap(),
        BashValue::String("hello world".to_string())
    );
    assert_eq!(parse_typed_value(BashType::Scalar, "").unwrap(), BashValue::String(String::new()));
    assert_eq!(
        parse_typed_value(BashType::Scalar, "'a' 'b'"),
        Err(ParseError::TrailingContent("'b'".to_string()))
    );
}

#[test]
fn an_indexed_array_reads_as_words() {
    assert_eq!(
        parse_typed_value(BashType::IndexedArray, "'a' $'b\\nc' d\n").unwrap(),
        BashValue::IndexedArray(words(&["a", "b\nc", "d"]))
    );
    assert_eq!(
        parse_typed_value(BashType::IndexedArray, "   ").unwrap(),
        BashValue::IndexedArray(vec![])
    );
    assert_eq!(
        parse_typed_value(BashType::IndexedArray, "("),
        Err(ParseError::TrailingContent("(".to_string()))
    );
    assert_eq!(
        parse_typed_value(BashType::IndexedArray, "'a"),
        Err(ParseError::UnterminatedSingleQuote)
    );
}

#[test]
fn an_assoc_array_reads_as_key_value_lines() {
    assert_eq!(
        parse_typed_value(BashType::AssocArray, "\n'k' 'v'\n\n'k 2' $'v\\t2'\n").unwrap(),
        BashValue::AssocArray(entries(&[("k", "v"), ("k 2", "v\t2")]))
    );
    assert_eq!(
        parse_typed_value(BashType::AssocArray, "'k'"),
        Err(ParseError::ExpectedPair("got key \"k\" with no value".to_string()))
    );
    assert_eq!(
        parse_typed_value(BashType::AssocArray, "'k' 'v' 'w'"),
        Err(ParseError::TrailingContent("'w'".to_string()))
    );
}

#[test]
fn a_value_writes_as_an_assignment() {
    assert_eq!(BashValue::String("hello".to_string()).to_bash(), "'hello'");
    assert_eq!(BashValue::String("it's".to_string()).to_bash(), "$'it\\'s'");
    assert_eq!(BashValue::IndexedArray(words(&["a", "b"])).to_bash(), "('a' 'b')");
    assert_eq!(BashValue::IndexedArray(vec![]).to_bash(), "()");
    assert_eq!(BashValue::AssocArray(entries(&[("k", "v")])).to_bash(), "(['k']='v')");
    assert_eq!(
        BashValue::AssocArray(entries(&[("k", "v"), ("j", "")])).to_bash(),
        "(['k']='v' ['j']='')"
    );
}

#[test]
fn a_written_value_reads_back_by_its_type() {
    let s = BashValue::String("x y".to_string());
    assert_eq!(parse_typed_value(BashType::Scalar, &s.to_bash()).unwrap(), s);
    let a = BashValue::IndexedArray(words(&["a", "it's"]));
    let literal = a.to_bash();
    let inner = &literal[1..literal.len() - 1];
    assert_eq!(parse_typed_value(BashType::IndexedArray, inner).unwrap(), a);
}
