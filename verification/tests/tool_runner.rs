use tiny_claw::config::McpServerConfig;
use tiny_claw::tool_runner::{arguments_or_empty, ServerSetup, ToolCallPlan, ToolRegistry};
use tiny_claw::types::{mcp_tool_to_openai, FunctionCall, McpContent, McpTool, McpToolResult, ToolCall};

fn tool(name: &str) -> McpTool {
    McpTool { name: name.to_string(), description: Some(format!("{} tool", name)), inputSchema: "{\"type\":\"object\"}".to_string() }
}

fn call(name: &str, args: &str) -> ToolCall {
    ToolCall {
        id: "id1".to_string(),
        kind: "function".to_string(),
        function: FunctionCall { name: name.to_string(), arguments: args.to_string() },
    }
}

fn registry() -> ToolRegistry<u32> {
    let mut r = ToolRegistry::new();
    r.add_server("files", 1, &vec![tool("read"), tool("write")]);
    r.add_server("web", 2, &vec![tool("fetch"), tool("read")]);
    r
}

#[test]
fn tools_route_to_their_server() {
    let r = registry();
    match r.plan_call(&call("write", "{\"path\":\"a\"}")) {
        ToolCallPlan::Call { connection, name, arguments } => {
            assert_eq!(*connection, 1);
            assert_eq!(name, "write");
            assert_eq!(arguments, "{\"path\":\"a\"}");
        }
        ToolCallPlan::Reply(t) => panic!("unexpected reply {}", t),
    }
    // a tool listed again by a later server goes to that server
    match r.plan_call(&call("read", "{}")) {
        ToolCallPlan::Call { connection, .. } => assert_eq!(*connection, 2),
        ToolCallPlan::Reply(t) => panic!("unexpected reply {}", t),
    }
}

#[test]
fn invalid_arguments_become_empty_object() {
    let r = registry();
    match r.plan_call(&call("fetch", "not json")) {
        ToolCallPlan::Call { connection, arguments, .. } => {
            assert_eq!(*connection, 2);
            assert_eq!(arguments, "{}");
        }
        ToolCallPlan::Reply(t) => panic!("unexpected reply {}", t),
    }
}

#[test]
fn unknown_tool_is_answered_with_error() {
    let r = registry();
    match r.plan_call(&call("delete", "{}")) {
        ToolCallPlan::Reply(t) => assert_eq!(t, "Error: tool 'delete' not found in any MCP server"),
        ToolCallPlan::Call { .. } => panic!("unexpected call"),
    }
}

#[test]
fn reconnecting_a_server_replaces_its_connection() {
    let mut r = registry();
    r.add_server("files", 7, &vec![]);
    match r.plan_call(&call("write", "{}")) {
        ToolCallPlan::Call { connection, .. } => assert_eq!(*connection, 7),
        ToolCallPlan::Reply(t) => panic!("unexpected reply {}", t),
    }
}

#[test]
fn tool_names_and_definitions() {
    let r = registry();
    assert_eq!(r.tool_names(), vec!["read", "write", "fetch"]);
    let defs = r.get_openai_tools();
    assert_eq!(defs.len(), 4);
    assert_eq!(defs[0], mcp_tool_to_openai(&tool("read")));
    assert_eq!(defs[2].function.name, "fetch");
    assert_eq!(defs[2].kind, "function");
    assert_eq!(defs[2].function.description.as_deref(), Some("fetch tool"));
    assert_eq!(defs[2].function.parameters, "{\"type\":\"object\"}");
}

#[test]
fn empty_registry() {
    let r: ToolRegistry<u32> = ToolRegistry::new();
    assert!(r.tool_names().is_empty());
    assert!(r.get_openai_tools().is_empty());
}

#[test]
fn result_texts_are_joined() {
    let ok = McpToolResult {
        content: vec![
            McpContent { content_type: "text".to_string(), text: Some("a".to_string()) },
            McpContent { content_type: "image".to_string(), text: None },
            McpContent { content_type: "text".to_string(), text: Some("b".to_string()) },
        ],
        is_error: false,
    };
    assert_eq!(ToolRegistry::<u32>::call_result_text("t", Ok(ok)), "a\nb");
    let err = McpToolResult {
        content: vec![McpContent { content_type: "text".to_string(), text: Some("bad".to_string()) }],
        is_error: true,
    };
    assert_eq!(ToolRegistry::<u32>::call_result_text("t", Ok(err)), "Tool error: bad");
    let empty = McpToolResult { content: vec![], is_error: false };
    assert_eq!(ToolRegistry::<u32>::call_result_text("t", Ok(empty)), "");
    assert_eq!(
        ToolRegistry::<u32>::call_result_text("t", Err("timeout".to_string())),
        "Error calling tool 't': timeout"
    );
}

#[test]
fn arguments_choice() {
    assert_eq!(arguments_or_empty("{\"a\":1}", true), "{\"a\":1}");
    assert_eq!(arguments_or_empty("oops", false), "{}");
}

fn server(name: &str, url: &str) -> McpServerConfig {
    McpServerConfig { name: name.to_string(), url: url.to_string() }
}

#[test]
fn failed_servers_are_skipped_with_a_warning() {
    let mut r: ToolRegistry<u32> = ToolRegistry::new();
    let s = server("files", "http://localhost:1");
    assert_eq!(
        r.record_setup(&s, ServerSetup::ConnectFailed("refused".to_string())),
        Err("Could not connect to MCP server 'files' at http://localhost:1: refused".to_string())
    );
    assert_eq!(
        r.record_setup(&s, ServerSetup::InitializeFailed("bad handshake".to_string())),
        Err("Failed to initialize MCP server 'files': bad handshake".to_string())
    );
    assert_eq!(
        r.record_setup(&s, ServerSetup::ListFailed("timeout".to_string())),
        Err("Failed to list tools from MCP server 'files': timeout".to_string())
    );
    assert!(r.tool_names().is_empty());
    assert!(r.get_openai_tools().is_empty());
}

#[test]
fn listed_servers_are_added() {
    let mut r: ToolRegistry<u32> = ToolRegistry::new();
    assert_eq!(r.record_setup(&server("files", "u"), ServerSetup::Listed(7, vec![tool("read"), tool("write")])), Ok(2));
    assert_eq!(r.record_setup(&server("down", "v"), ServerSetup::ConnectFailed("x".to_string())), Err("Could not connect to MCP server 'down' at v: x".to_string()));
    assert_eq!(r.tool_names(), vec!["read", "write"]);
    match r.plan_call(&call("read", "{}")) {
        ToolCallPlan::Call { connection, .. } => assert_eq!(*connection, 7),
        ToolCallPlan::Reply(t) => panic!("unexpected reply {}", t),
    }
}

#[test]
fn routed_names_are_the_offered_names() {
    let r = registry();
    let mut names: Vec<String> = r.tool_names().iter().map(|s| s.to_string()).collect();
    names.sort();
    let mut offered: Vec<String> = r.get_openai_tools().iter().map(|d| d.function.name.clone()).collect();
    offered.sort();
    offered.dedup();
    assert_eq!(names, offered);
    assert_eq!(names, vec!["fetch", "read", "write"]);
    assert!(r.get_openai_tools().iter().all(|d| d.kind == "function"));
    assert_eq!(r.get_openai_tools(), r.get_openai_tools());
}

#[test]
fn later_server_of_same_name_takes_the_connection() {
    let mut r: ToolRegistry<u32> = ToolRegistry::new();
    r.add_server("a", 1, &vec![tool("read")]);
    r.add_server("b", 2, &vec![tool("write")]);
    r.add_server("a", 3, &vec![tool("list")]);
    // "read" was listed by the first "a", whose connection the later "a" replaced
    match r.plan_call(&call("read", "{}")) {
        ToolCallPlan::Call { connection, .. } => assert_eq!(*connection, 3),
        ToolCallPlan::Reply(t) => panic!("unexpected reply {}", t),
    }
    match r.plan_call(&call("write", "{}")) {
        ToolCallPlan::Call { connection, .. } => assert_eq!(*connection, 2),
        ToolCallPlan::Reply(t) => panic!("unexpected reply {}", t),
    }
}
