use gmod_gabp::gabp::json::JsonValue;

#[test]
fn parses_and_reads_members() {
    let v = JsonValue::parse(r#"{"a": "x", "b": [1, "y"], "c": null}"#).unwrap();
    assert_eq!(v.get("a").unwrap().as_str().unwrap(), "x");
    assert!(v.get("a").unwrap().as_array().is_none());
    assert_eq!(v.get("b").unwrap().as_array().unwrap().len(), 2);
    assert!(matches!(v.get("c").unwrap(), JsonValue::Null));
    assert!(v.get("missing").is_none());
    assert!(JsonValue::parse("[1]").unwrap().get("a").is_none());
}

#[test]
fn reports_parse_errors_with_the_parser_message() {
    let err = JsonValue::parse("{not json").unwrap_err();
    assert!(err.contains("line 1"));
    assert!(!err.is_empty());
}

#[test]
fn writes_compact_text() {
    let v = JsonValue::parse(r#"{ "b" : [ 1 , 2.5 , true ], "a" : "q\"" }"#).unwrap();
    assert_eq!(v.to_json_string().unwrap(), r#"{"a":"q\"","b":[1,2.5,true]}"#);
}

#[test]
fn deep_copy_is_equal_text() {
    let v = JsonValue::parse(r#"{"x":{"y":[1,{"z":-3}]},"w":"s"}"#).unwrap();
    let c = v.deep_copy();
    assert_eq!(c.to_json_string().unwrap(), v.to_json_string().unwrap());
}
