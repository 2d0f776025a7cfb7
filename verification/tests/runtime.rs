use gmod_gabp::gabp::runtime::TOOL_CALL_TIMEOUT_MS;
use gmod_gabp::gabp::envelope::{GabpRequest, GabpResponse};
use gmod_gabp::gabp::json::JsonValue;
use gmod_gabp::gabp::registry::{PendingToolCall, ToolCompletion, ToolFailure};
use gmod_gabp::gabp::runtime::{
    complete_call_from_lua, current_runtime, fail_call_from_lua, poll_call_for_lua, register_tool_from_lua,
    set_global_runtime, shutdown_global_runtime, BridgeRuntime, RequestOutcome, RuntimeConfig,
    RuntimeError,
};

fn runtime() -> BridgeRuntime {
    BridgeRuntime::new(RuntimeConfig {
        game_id: "gmod-dev".to_string(),
        port: 39001,
        token: "secret".to_string(),
        launch_id: "test-launch".to_string(),
    })
}

fn request(method: &str, params: &str) -> GabpRequest {
    GabpRequest {
        v: "gabp/1".to_string(),
        id: "hello-1".to_string(),
        message_type: "request".to_string(),
        method: method.to_string(),
        params: JsonValue::parse(params).unwrap(),
    }
}

fn respond(outcome: RequestOutcome) -> GabpResponse {
    match outcome {
        RequestOutcome::Respond(r) => r,
        RequestOutcome::AwaitCompletion(id) => panic!("unexpected wait for {id}"),
    }
}

fn str_at<'a>(v: &'a JsonValue, path: &[&str]) -> &'a str {
    let mut cur = v;
    for key in path {
        cur = cur.get(key).unwrap();
    }
    cur.as_str().unwrap()
}

fn current(slot: &mut Option<BridgeRuntime>) -> Result<&mut BridgeRuntime, String> {
    current_runtime(slot.as_mut())
}

#[test]
fn accepts_valid_session_hello() {
    let response = respond(runtime().handle_request(request(
        "session/hello",
        r#"{"token": "secret", "bridgeVersion": "1.0.0", "platform": "windows", "launchId": "client-launch"}"#,
    )));

    let result = response.result.unwrap();
    assert_eq!(str_at(&result, &["agentId"]), "gmod-dev");
    assert_eq!(str_at(&result, &["app", "name"]), "Garry's Mod GABP Bridge");
    let methods = result.get("capabilities").unwrap().get("methods").unwrap().as_array().unwrap();
    assert_eq!(methods[0].as_str().unwrap(), "tools/list");
}

#[test]
fn rejects_bad_token() {
    let response = respond(runtime().handle_request(request("session/hello", r#"{"token": "wrong"}"#)));
    assert_eq!(response.error.unwrap().code, -32101);
}

#[test]
fn registers_tool_from_lua_json_against_global_runtime() {
    let mut slot: Option<BridgeRuntime> = None;
    shutdown_global_runtime(&mut slot);
    set_global_runtime(&mut slot, runtime()).unwrap();

    register_tool_from_lua(
        current(&mut slot),
        "server/status",
        r#"{"description":"Read status","tags":["read-only"],"inputSchema":{"type":"object"}}"#,
    )
    .unwrap();

    let tools = slot.as_ref().unwrap().registry().list_tools();
    assert_eq!(tools.len(), 1);
    assert_eq!(tools[0].name, "server/status");

    shutdown_global_runtime(&mut slot);
    assert!(slot.is_none());
}

#[test]
fn polls_and_completes_call_for_lua() {
    let mut slot: Option<BridgeRuntime> = None;
    let mut rt = runtime();
    rt.queue.enqueue(PendingToolCall {
        request_id: "req-1".to_string(),
        tool_name: "server/status".to_string(),
        arguments: JsonValue::parse(r#"{"verbose": true}"#).unwrap(),
    });
    set_global_runtime(&mut slot, rt).unwrap();

    let call_json = poll_call_for_lua(current(&mut slot)).unwrap();
    assert!(call_json.contains(r#""requestId":"req-1""#));

    complete_call_from_lua(current(&mut slot), "req-1", r#"{"ok":true}"#).unwrap();
    let completion = slot.as_mut().unwrap().queue.take_completion("req-1").unwrap();
    let result = completion.result.ok().unwrap();
    assert!(matches!(result.get("ok").unwrap(), JsonValue::Bool(true)));

    shutdown_global_runtime(&mut slot);
}

#[test]
fn rejects_second_start() {
    let mut slot: Option<BridgeRuntime> = None;
    set_global_runtime(&mut slot, runtime()).unwrap();
    assert_eq!(set_global_runtime(&mut slot, runtime()).unwrap_err(), "runtime already started");
    shutdown_global_runtime(&mut slot);
    set_global_runtime(&mut slot, runtime()).unwrap();
}

#[test]
fn lua_calls_without_runtime() {
    let mut slot: Option<BridgeRuntime> = None;
    assert_eq!(
        register_tool_from_lua(current(&mut slot), "a/b", r#"{"description":"d"}"#).unwrap_err(),
        "runtime not started"
    );
    assert_eq!(
        register_tool_from_lua(current(&mut slot), "a/b", r#"{}"#).unwrap_err(),
        "MissingDescription"
    );
    assert!(poll_call_for_lua(current(&mut slot)).is_none());
    assert_eq!(
        complete_call_from_lua(current(&mut slot), "r", "1").unwrap_err(),
        "runtime not started"
    );
    assert!(complete_call_from_lua(current(&mut slot), "r", "{").unwrap_err().contains("EOF"));
    assert!(fail_call_from_lua(current(&mut slot), "r", 1, "m", Some("[")).is_err());
}

#[test]
fn lua_registration_errors_are_debug_text() {
    let mut slot = Some(runtime());
    assert_eq!(
        register_tool_from_lua(current(&mut slot), "Bad", r#"{"description":"d"}"#).unwrap_err(),
        "InvalidToolName(\"Bad\")"
    );
    register_tool_from_lua(current(&mut slot), "a/b", r#"{"description":"d"}"#).unwrap();
    assert_eq!(
        register_tool_from_lua(current(&mut slot), "a/b", r#"{"description":"d"}"#).unwrap_err(),
        "DuplicateTool(\"a/b\")"
    );
    assert!(register_tool_from_lua(current(&mut slot), "a/b", "nope")
        .unwrap_err()
        .starts_with("InvalidJson(\""));
}

#[test]
fn tools_call_flow() {
    let mut rt = runtime();
    register_tool_from_lua(Ok(&mut rt), "server/status", r#"{"description":"d"}"#).unwrap();

    let listed = respond(rt.handle_request(request("tools/list", "{}")));
    let tools = listed.result.unwrap();
    let tools = tools.get("tools").unwrap().as_array().unwrap();
    assert_eq!(tools.len(), 1);
    assert_eq!(str_at(&tools[0], &["name"]), "server/status");
    assert!(tools[0].get("outputSchema").is_none());

    let mut call = request("tools/call", r#"{"name":"server/status","arguments":{"x":1}}"#);
    call.id = "req-9".to_string();
    match rt.handle_request(call) {
        RequestOutcome::AwaitCompletion(id) => assert_eq!(id, "req-9"),
        RequestOutcome::Respond(_) => panic!("expected a queued call"),
    }
    let mut slot = Some(rt);
    let text = poll_call_for_lua(current(&mut slot)).unwrap();
    assert_eq!(text, r#"{"arguments":{"x":1},"requestId":"req-9","toolName":"server/status"}"#);
    fail_call_from_lua(current(&mut slot), "req-9", 42, "boom", Some(r#"{"why":"x"}"#)).unwrap();
    let completion = slot.as_mut().unwrap().queue.take_completion("req-9");
    let response = BridgeRuntime::finish_tools_call("req-9".to_string(), completion);
    let error = response.error.unwrap();
    assert_eq!((error.code, error.message.as_str()), (42, "boom"));
    assert_eq!(str_at(error.data.as_ref().unwrap(), &["why"]), "x");
}

#[test]
fn tools_call_errors() {
    let mut rt = runtime();
    let r = respond(rt.handle_request(request("tools/call", "{}")));
    assert_eq!(r.error.unwrap().code, -32602);
    let r = respond(rt.handle_request(request("tools/call", r#"{"name":"x/y"}"#)));
    let e = r.error.unwrap();
    assert_eq!(e.code, -32400);
    assert_eq!(e.message, "Tool not found");
    assert_eq!(str_at(e.data.as_ref().unwrap(), &["tool"]), "x/y");
    let timed_out = BridgeRuntime::finish_tools_call("q".to_string(), None);
    assert_eq!(timed_out.error.unwrap().code, -32403);
    let ok = BridgeRuntime::finish_tools_call(
        "q".to_string(),
        Some(ToolCompletion { request_id: "q".to_string(), result: Ok(JsonValue::Bool(false)) }),
    );
    assert!(matches!(ok.result, Some(JsonValue::Bool(false))));
    let failed = BridgeRuntime::finish_tools_call(
        "q".to_string(),
        Some(ToolCompletion {
            request_id: "q".to_string(),
            result: Err(ToolFailure { code: 3, message: "m".to_string(), data: None }),
        }),
    );
    assert_eq!(failed.error.unwrap().code, 3);
}

#[test]
fn rejects_invalid_envelope_and_unknown_method() {
    let mut rt = runtime();
    let mut bad = request("tools/list", "{}");
    bad.v = "gabp/2".to_string();
    let r = respond(rt.handle_request(bad));
    let e = r.error.unwrap();
    assert_eq!((e.code, e.message.as_str()), (-32600, "Invalid GABP request"));
    let mut bad = request("tools/list", "{}");
    bad.message_type = "event".to_string();
    assert_eq!(respond(rt.handle_request(bad)).error.unwrap().code, -32600);
    let r = respond(rt.handle_request(request("nope/nope", "{}")));
    let e = r.error.unwrap();
    assert_eq!((e.code, e.message.as_str()), (-32601, "Method not found"));
    assert_eq!(str_at(e.data.as_ref().unwrap(), &["method"]), "nope/nope");
    let r = respond(rt.handle_request(request("session/hello", "{}")));
    assert_eq!(r.error.unwrap().code, -32101);
}

#[test]
fn parse_error_response_shape() {
    let r = BridgeRuntime::parse_error_response("bad".to_string());
    assert_eq!(r.id, "00000000-0000-0000-0000-000000000000");
    let e = r.error.unwrap();
    assert_eq!((e.code, e.message.as_str()), (-32700, "Parse error"));
    assert_eq!(str_at(e.data.as_ref().unwrap(), &["error"]), "bad");
}

#[test]
fn config_from_env_values() {
    let s = |x: &str| Some(x.to_string());
    let c = RuntimeConfig::from_env_values(s("g"), s("+39001"), s("t"), None, "fresh".to_string())
        .unwrap();
    assert_eq!((c.game_id.as_str(), c.port, c.token.as_str(), c.launch_id.as_str()), ("g", 39001, "t", "fresh"));
    let c = RuntimeConfig::from_env_values(s("g"), s("1"), s("t"), s("L"), "fresh".to_string()).unwrap();
    assert_eq!(c.launch_id, "L");
    assert_eq!(
        RuntimeConfig::from_env_values(None, None, None, None, String::new()).unwrap_err(),
        RuntimeError::MissingEnv("GABS_GAME_ID")
    );
    assert_eq!(
        RuntimeConfig::from_env_values(s("g"), None, None, None, String::new()).unwrap_err(),
        RuntimeError::MissingEnv("GABP_SERVER_PORT")
    );
    assert_eq!(
        RuntimeConfig::from_env_values(s("g"), s("x"), None, None, String::new()).unwrap_err(),
        RuntimeError::MissingEnv("GABP_TOKEN")
    );
    assert_eq!(
        RuntimeConfig::from_env_values(s("g"), s("65536"), s("t"), None, String::new()).unwrap_err(),
        RuntimeError::InvalidPort("65536".to_string())
    );
}

#[test]
fn hello_and_list_results_as_text() {
    let mut rt = runtime();
    let hello = respond(rt.handle_request(request("session/hello", r#"{"token":"secret"}"#)));
    assert_eq!(
        hello.result.unwrap().to_json_string().unwrap(),
        r#"{"agentId":"gmod-dev","app":{"name":"Garry's Mod GABP Bridge","version":"0.1.0"},"capabilities":{"events":[],"methods":["tools/list","tools/call"],"resources":[]},"schemaVersion":"1.0"}"#
    );
    register_tool_from_lua(
        Ok(&mut rt),
        "server/status",
        r#"{"description":"Read status","tags":["read-only"],"outputSchema":{"type":"object"}}"#,
    )
    .unwrap();
    let listed = respond(rt.handle_request(request("tools/list", "{}")));
    assert_eq!(
        listed.result.unwrap().to_json_string().unwrap(),
        r#"{"tools":[{"description":"Read status","inputSchema":{"properties":{},"type":"object"},"name":"server/status","outputSchema":{"type":"object"},"tags":["read-only"]}]}"#
    );
}

#[test]
fn new_runtime_waits_thirty_seconds_for_tools() {
    assert_eq!(runtime().tool_timeout_ms, 30_000);
    assert_eq!(TOOL_CALL_TIMEOUT_MS, 30_000);
}

#[test]
fn config_from_env_vars_makes_a_launch_id_only_when_missing() {
    let s = |v: &str| Some(v.to_string());
    let c = RuntimeConfig::from_env_vars(s("g"), s("39001"), s("t"), s("L")).unwrap();
    assert_eq!(c.launch_id, "L");
    let c = RuntimeConfig::from_env_vars(s("g"), s("39001"), s("t"), None).unwrap();
    let id: Vec<char> = c.launch_id.chars().collect();
    assert_eq!(id.len(), 36);
    for (i, ch) in id.iter().enumerate() {
        if [8, 13, 18, 23].contains(&i) {
            assert_eq!(*ch, '-');
        } else {
            assert!(ch.is_ascii_digit() || ('a'..='f').contains(ch));
        }
    }
    assert_eq!(id[14], '4');
    assert!(['8', '9', 'a', 'b'].contains(&id[19]));
    let other = RuntimeConfig::from_env_vars(s("g"), s("39001"), s("t"), None).unwrap();
    assert_ne!(other.launch_id, c.launch_id);
    assert_eq!(
        RuntimeConfig::from_env_vars(s("g"), s("x"), s("t"), None).unwrap_err(),
        RuntimeError::InvalidPort("x".to_string())
    );
    assert_eq!(
        RuntimeConfig::from_env_vars(None, None, None, None).unwrap_err(),
        RuntimeError::MissingEnv("GABS_GAME_ID")
    );
}

#[test]
fn current_runtime_reports_a_missing_runtime() {
    assert_eq!(current_runtime::<u8>(None).unwrap_err(), "runtime not started");
    assert_eq!(current_runtime(Some(7u8)), Ok(7));
    let mut slot: Option<BridgeRuntime> = Some(runtime());
    shutdown_global_runtime(&mut slot);
    assert_eq!(
        fail_call_from_lua(current(&mut slot), "r", 1, "m", None).unwrap_err(),
        "runtime not started"
    );
}
