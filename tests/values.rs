use skdb::parser::{parse_value_str, value_to_string_key, parse_header_line, parse_data_line};
use skdb::query::serialize_value;
use skdb::{add, Value};

fn s(x: &str) -> Value {
    Value::String(x.to_string())
}

#[test]
fn it_works() {
    let result = add(2, 2);
    assert_eq!(result, 4);
}

#[test]
fn empty_text_is_empty_string() {
    assert_eq!(parse_value_str("", None), s(""));
    assert_eq!(parse_value_str("   ", Some("integer")), s(""));
}

#[test]
fn null_word_depends_on_hint() {
    assert_eq!(parse_value_str("null", None), Value::Null);
    assert_eq!(parse_value_str("NULL", Some("integer")), Value::Null);
    assert_eq!(parse_value_str("null", Some("string")), s("null"));
}

#[test]
fn nested_tuple() {
    assert_eq!(
        parse_value_str("(a,(b,c))", None),
        Value::Tuple(vec![s("a"), Value::Tuple(vec![s("b"), s("c")])])
    );
}

#[test]
fn quoted_comma_is_one_string() {
    assert_eq!(parse_value_str("\"a,b\"", None), s("a,b"));
}

#[test]
fn integer_text_and_string_hint() {
    assert_eq!(parse_value_str("42", None), Value::Integer(42));
    assert_eq!(parse_value_str("42", Some("string")), s("42"));
    assert_eq!(parse_value_str("-7", Some("integer")), Value::Integer(-7));
}

#[test]
fn integer_hint_falls_back_to_text() {
    assert_eq!(parse_value_str("abc", Some("integer")), s("abc"));
}

#[test]
fn boolean_words() {
    assert_eq!(parse_value_str("TRUE", Some("boolean")), s("true"));
    assert_eq!(parse_value_str("False", None), s("false"));
}

#[test]
fn reference_hint_reads_type_and_key() {
    assert_eq!(
        parse_value_str("sys::5", Some("any::sys")),
        Value::Reference { table: "sys".to_string(), key: Box::new(Value::Integer(5)) }
    );
    assert_eq!(
        parse_value_str("sys::\"k\"", Some("any::sys")),
        Value::Reference { table: "sys".to_string(), key: Box::new(s("k")) }
    );
    assert_eq!(parse_value_str("plain", Some("any::sys")), s("plain"));
}

#[test]
fn empty_tuple() {
    assert_eq!(parse_value_str("()", None), Value::Tuple(vec![]));
}

#[test]
fn single_element_tuple_with_trailing_comma() {
    assert_eq!(parse_value_str("(a,)", None), Value::Tuple(vec![s("a"), s("")]));
}

#[test]
fn doubled_single_quotes() {
    assert_eq!(parse_value_str("'it''s'", None), s("it's"));
    assert_eq!(parse_value_str("'bobby'", None), s("bobby"));
}

#[test]
fn canonical_keys() {
    assert_eq!(value_to_string_key(&s("a")), Ok("a".to_string()));
    assert_eq!(value_to_string_key(&Value::Integer(-12)), Ok("-12".to_string()));
    assert_eq!(
        value_to_string_key(&Value::Tuple(vec![s("a"), Value::Integer(1), Value::Tuple(vec![])])),
        Ok("(a,1,())".to_string())
    );
    assert!(value_to_string_key(&Value::Null).is_err());
    let r = Value::Reference { table: "t".to_string(), key: Box::new(Value::Integer(0)) };
    assert!(value_to_string_key(&r).is_err());
}

#[test]
fn serialized_values() {
    assert_eq!(serialize_value(&Value::Null), "");
    assert_eq!(serialize_value(&Value::Integer(-3)), "-3");
    assert_eq!(serialize_value(&s("plain")), "plain");
    assert_eq!(serialize_value(&s("")), "''");
    assert_eq!(serialize_value(&s("a,b")), "'a,b'");
    assert_eq!(serialize_value(&s("it's")), "'it''s'");
    assert_eq!(serialize_value(&s("two words")), "two words");
    assert_eq!(serialize_value(&s("\ttab")), "'\ttab'");
    assert_eq!(serialize_value(&Value::Tuple(vec![Value::Integer(3), s("x")])), "(3,x)");
    let r = Value::Reference { table: "t".to_string(), key: Box::new(s("k")) };
    assert_eq!(serialize_value(&r), "(k)");
}

#[test]
fn header_line_with_keys_and_types() {
    let (hs, pk) = parse_header_line("/id:index/v/w::integer/x::index/").unwrap();
    assert_eq!(hs.len(), 4);
    assert_eq!(hs[0].name, "id");
    assert_eq!(hs[0].type_info, Some("index".to_string()));
    assert!(hs[0].is_primary_key);
    assert_eq!(hs[1].type_info, None);
    assert_eq!(hs[2].type_info, Some("integer".to_string()));
    assert!(!hs[3].is_primary_key);
    assert_eq!(pk, Some("id".to_string()));
}

#[test]
fn header_line_errors() {
    assert!(parse_header_line("id/name/").is_err());
    assert!(parse_header_line("/a/a/").is_err());
    assert!(parse_header_line("/::x/").is_err());
    assert_eq!(parse_header_line("//").unwrap().0.len(), 0);
    assert_eq!(parse_header_line("/").unwrap().0.len(), 0);
}

#[test]
fn data_line_fills_and_refuses() {
    let (hs, _) = parse_header_line("/a/b::integer/c/").unwrap();
    let row = parse_data_line("x, 7", &hs, &[]).unwrap();
    assert_eq!(row.fields.len(), 3);
    assert_eq!(row.fields[0], ("a".to_string(), s("x")));
    assert_eq!(row.fields[1], ("b".to_string(), Value::Integer(7)));
    assert_eq!(row.fields[2], ("c".to_string(), s("")));
    assert!(parse_data_line("1,2,3,4", &hs, &[]).is_err());
    assert!(parse_data_line("\"x,1", &hs, &[]).is_err());
    assert!(parse_data_line("(1,2", &hs, &[]).is_err());
    assert!(parse_data_line("1),2", &hs, &[]).is_err());
    let row = parse_data_line("(1,2),\"p,q\",z", &hs, &[]).unwrap();
    assert_eq!(row.fields[0].1, Value::Tuple(vec![Value::Integer(1), Value::Integer(2)]));
    assert_eq!(row.fields[1].1, s("p,q"));
}
