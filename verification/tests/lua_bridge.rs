use gmod_gabp::gabp::json::JsonValue;
use gmod_gabp::gabp::lua_bridge::{parse_tool_descriptor, pending_call_to_json, LuaBridgeError};
use gmod_gabp::gabp::registry::PendingToolCall;

#[test]
fn parses_tool_descriptor_from_lua_json() {
    let descriptor = parse_tool_descriptor(
        "server/status",
        r#"{"description":"Read status","tags":["read-only"],"inputSchema":{"type":"object"}}"#,
    )
    .unwrap();

    assert_eq!(descriptor.name, "server/status");
    assert_eq!(descriptor.description, "Read status");
    assert_eq!(descriptor.tags, vec!["read-only"]);
}

#[test]
fn serializes_pending_call_for_lua() {
    let json = pending_call_to_json(PendingToolCall {
        request_id: "req-1".to_string(),
        tool_name: "server/status".to_string(),
        arguments: JsonValue::parse(r#"{"verbose": true}"#).unwrap(),
    })
    .unwrap();

    assert!(json.contains(r#""requestId":"req-1""#));
    assert!(json.contains(r#""toolName":"server/status""#));
}

#[test]
fn pending_call_text_is_exact() {
    let json = pending_call_to_json(PendingToolCall {
        request_id: "r".to_string(),
        tool_name: "a/b".to_string(),
        arguments: JsonValue::parse(r#"{"n": 1}"#).unwrap(),
    })
    .unwrap();
    assert_eq!(json, r#"{"arguments":{"n":1},"requestId":"r","toolName":"a/b"}"#);
}

#[test]
fn descriptor_defaults() {
    let d = parse_tool_descriptor("a/b", r#"{"description":"d","tags":[1,"x",null,"y"]}"#).unwrap();
    assert_eq!(d.tags, vec!["x", "y"]);
    assert_eq!(
        d.input_schema.to_json_string().unwrap(),
        r#"{"properties":{},"type":"object"}"#
    );
    assert!(d.output_schema.is_none());
    let d = parse_tool_descriptor("a/b", r#"{"description":"d","tags":"no","outputSchema":{"k":2}}"#)
        .unwrap();
    assert!(d.tags.is_empty());
    assert_eq!(d.output_schema.unwrap().to_json_string().unwrap(), r#"{"k":2}"#);
}

#[test]
fn descriptor_errors() {
    assert_eq!(
        parse_tool_descriptor("a/b", r#"{"tags":[]}"#).unwrap_err(),
        LuaBridgeError::MissingDescription
    );
    assert_eq!(
        parse_tool_descriptor("a/b", r#"{"description":5}"#).unwrap_err(),
        LuaBridgeError::MissingDescription
    );
    match parse_tool_descriptor("a/b", "{") {
        Err(LuaBridgeError::InvalidJson(msg)) => assert!(msg.contains("EOF")),
        other => panic!("unexpected {:?}", other.map(|d| d.name)),
    }
}

#[test]
fn error_debug_strings() {
    assert_eq!(LuaBridgeError::MissingDescription.debug_string(), "MissingDescription");
    assert_eq!(
        LuaBridgeError::InvalidJson("bad \"x\"".to_string()).debug_string(),
        "InvalidJson(\"bad \\\"x\\\"\")"
    );
}
