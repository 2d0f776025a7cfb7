use gmod_gabp::gabp::envelope::{GabpResponse, GABP_VERSION};
use gmod_gabp::gabp::json::JsonValue;

fn member<'a>(v: &'a JsonValue, key: &str) -> &'a JsonValue {
    v.get(key).unwrap()
}

#[test]
fn serializes_success_response_with_gabp_version() {
    let response = GabpResponse::success(
        "abc".to_string(),
        JsonValue::parse(r#"{"ok": true}"#).unwrap(),
    );

    assert_eq!(response.v, "gabp/1");
    assert_eq!(response.id, "abc");
    assert_eq!(response.message_type, "response");
    assert!(matches!(
        member(response.result.as_ref().unwrap(), "ok"),
        JsonValue::Bool(true)
    ));
    assert!(response.error.is_none());
}

#[test]
fn serializes_error_response_with_code_and_message() {
    let response =
        GabpResponse::failure("abc".to_string(), -32601, "Method not found".to_string(), None);

    let error = response.error.as_ref().unwrap();
    assert_eq!(error.code, -32601);
    assert_eq!(error.message, "Method not found");
    assert!(error.data.is_none());
    assert!(response.result.is_none());
    assert_eq!(response.v, GABP_VERSION);
}

#[test]
fn failure_carries_data() {
    let data = JsonValue::parse(r#"{"method":"x/y"}"#).unwrap();
    let response = GabpResponse::failure("7".to_string(), -1, "m".to_string(), Some(data));
    let data = response.error.unwrap().data.unwrap();
    assert_eq!(member(&data, "method").as_str().unwrap(), "x/y");
}
