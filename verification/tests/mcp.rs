use eve_core::ai_tools::ToolSpec;
use eve_core::mcp::{route, McpRoute, PROTOCOL_VERSION};

fn tools() -> Vec<ToolSpec> {
    vec![ToolSpec {
        name: "system_risk".to_string(),
        description: "risk".to_string(),
        parameters: "{}".to_string(),
    }]
}

#[test]
fn routes_known_methods() {
    let t = tools();
    assert_eq!(route("initialize", "", &t), McpRoute::Initialize);
    assert_eq!(route("ping", "", &t), McpRoute::Ping);
    assert_eq!(route("tools/list", "", &t), McpRoute::ToolsList);
    assert_eq!(PROTOCOL_VERSION, "2024-11-05");
}

#[test]
fn tool_call_needs_an_offered_tool() {
    let t = tools();
    assert_eq!(route("tools/call", "system_risk", &t), McpRoute::CallTool("system_risk".to_string()));
    assert_eq!(route("tools/call", "wallet_drain", &t), McpRoute::UnknownTool);
    assert_eq!(route("tools/call", "", &t), McpRoute::UnknownTool);
}

#[test]
fn notifications_get_no_reply() {
    assert_eq!(route("notifications/initialized", "", &tools()), McpRoute::Notification);
}

#[test]
fn missing_and_unknown_methods_are_errors() {
    let t = tools();
    assert_eq!(route("", "", &t), McpRoute::NoMethod);
    assert_eq!(route("resources/list", "", &t), McpRoute::MethodNotFound("resources/list".to_string()));
}
