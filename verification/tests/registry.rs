use gmod_gabp::gabp::registry::{completion_wait_step, WaitStep, COMPLETION_POLL_MS};
use gmod_gabp::gabp::json::JsonValue;
use gmod_gabp::gabp::registry::{
    is_valid_tool_name, CallQueue, PendingToolCall, RegistryError, ToolCompletion,
    ToolDescriptor, ToolFailure, ToolRegistry,
};

fn descriptor(name: &str) -> ToolDescriptor {
    ToolDescriptor {
        name: name.to_string(),
        description: "Read server status.".to_string(),
        tags: vec!["read-only".to_string()],
        input_schema: JsonValue::parse(r#"{"type": "object", "properties": {}}"#).unwrap(),
        output_schema: Some(JsonValue::parse(r#"{"type": "object"}"#).unwrap()),
    }
}

#[test]
fn registers_and_lists_tool_descriptor() {
    let mut registry = ToolRegistry::default();
    registry.register_tool(descriptor("server/status")).unwrap();

    let tools = registry.list_tools();
    assert_eq!(tools.len(), 1);
    assert_eq!(tools[0].name, "server/status");
}

#[test]
fn rejects_invalid_tool_name() {
    let mut registry = ToolRegistry::default();
    let error = registry
        .register_tool(ToolDescriptor {
            name: "ServerStatus".to_string(),
            description: "Invalid name.".to_string(),
            tags: vec![],
            input_schema: JsonValue::parse(r#"{"type": "object"}"#).unwrap(),
            output_schema: None,
        })
        .unwrap_err();

    assert_eq!(error, RegistryError::InvalidToolName("ServerStatus".to_string()));
}

#[test]
fn queues_and_completes_tool_call() {
    let mut queue = CallQueue::default();
    queue.enqueue(PendingToolCall {
        request_id: "req-1".to_string(),
        tool_name: "server/status".to_string(),
        arguments: JsonValue::parse("{}").unwrap(),
    });

    let pending = queue.try_dequeue().unwrap();
    assert_eq!(pending.tool_name, "server/status");

    queue
        .complete(ToolCompletion {
            request_id: "req-1".to_string(),
            result: Ok(JsonValue::parse(r#"{"running": true}"#).unwrap()),
        })
        .unwrap();

    let completion = queue.take_completion("req-1").unwrap();
    let result = completion.result.ok().unwrap();
    assert!(matches!(result.get("running").unwrap(), JsonValue::Bool(true)));
}

#[test]
fn rejects_duplicate_and_keeps_name_order() {
    let mut registry = ToolRegistry::new();
    registry.register_tool(descriptor("server/status")).unwrap();
    registry.register_tool(descriptor("map/current")).unwrap();
    registry.register_tool(descriptor("entity/list")).unwrap();
    assert_eq!(
        registry.register_tool(descriptor("map/current")).unwrap_err(),
        RegistryError::DuplicateTool("map/current".to_string())
    );
    let names: Vec<String> = registry.list_tools().into_iter().map(|d| d.name).collect();
    assert_eq!(names, vec!["entity/list", "map/current", "server/status"]);
    assert!(registry.has_tool("map/current"));
    assert!(!registry.has_tool("map"));
}

#[test]
fn tool_name_rules() {
    assert!(is_valid_tool_name("server/status"));
    assert!(is_valid_tool_name("a/b/c-d_9"));
    assert!(!is_valid_tool_name("server"));
    assert!(!is_valid_tool_name("ServerStatus"));
    assert!(!is_valid_tool_name("server/"));
    assert!(!is_valid_tool_name("/status"));
    assert!(!is_valid_tool_name("server//status"));
    assert!(!is_valid_tool_name("server/9lives"));
    assert!(!is_valid_tool_name("server/Status"));
    assert!(!is_valid_tool_name("server/st atus"));
    assert!(!is_valid_tool_name(""));
}

#[test]
fn queue_is_first_in_first_out() {
    let mut queue = CallQueue::new();
    assert!(queue.try_dequeue().is_none());
    for id in ["1", "2", "3"] {
        queue.enqueue(PendingToolCall {
            request_id: id.to_string(),
            tool_name: "a/b".to_string(),
            arguments: JsonValue::Null,
        });
    }
    let order: Vec<String> = (0..3).map(|_| queue.try_dequeue().unwrap().request_id).collect();
    assert_eq!(order, vec!["1", "2", "3"]);
    assert!(queue.try_dequeue().is_none());
}

#[test]
fn later_completion_replaces_earlier_and_take_removes() {
    let mut queue = CallQueue::new();
    queue
        .complete(ToolCompletion { request_id: "r".to_string(), result: Ok(JsonValue::Null) })
        .unwrap();
    queue
        .complete(ToolCompletion {
            request_id: "r".to_string(),
            result: Err(ToolFailure { code: 5, message: "no".to_string(), data: None }),
        })
        .unwrap();
    assert!(queue.take_completion("other").is_none());
    let c = queue.take_completion("r").unwrap();
    match c.result {
        Err(f) => assert_eq!((f.code, f.message.as_str()), (5, "no")),
        Ok(_) => panic!("expected the later completion"),
    }
    assert!(queue.take_completion("r").is_none());
}

#[test]
fn registry_error_debug_strings() {
    assert_eq!(
        RegistryError::InvalidToolName("Bad".to_string()).debug_string(),
        "InvalidToolName(\"Bad\")"
    );
    assert_eq!(RegistryError::LockPoisoned.debug_string(), "LockPoisoned");
}

#[test]
fn completion_wait_steps() {
    let done = || ToolCompletion { request_id: "r".to_string(), result: Ok(JsonValue::Bool(true)) };
    match completion_wait_step(Some(done()), 99_999, 10) {
        WaitStep::Finish(Some(c)) => assert_eq!(c, done()),
        _ => panic!("a found completion finishes the wait"),
    }
    assert!(matches!(completion_wait_step(None, 10, 10), WaitStep::Finish(None)));
    assert!(matches!(completion_wait_step(None, 11, 10), WaitStep::Finish(None)));
    assert!(matches!(completion_wait_step(None, 9, 10), WaitStep::Sleep(5)));
    assert_eq!(COMPLETION_POLL_MS, 5);
}
