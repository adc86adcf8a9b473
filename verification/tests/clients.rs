use tiny_claw::config::{default_api_key_env, McpServerConfig};
use tiny_claw::llm_client::LlmEndpoint;
use tiny_claw::mcp_client::{http_error_message, endpoint_from_event, is_json_content, match_rpc_reply, post_endpoint, RpcReply};
use tiny_claw::types::{JsonRpcError, McpTool, ToolDefinition, mcp_tool_to_openai};

#[test]
fn default_key_variable() {
    assert_eq!(default_api_key_env(), "OPENAI_API_KEY");
}

#[test]
fn server_config_clones() {
    let c = McpServerConfig { name: "a".to_string(), url: "http://x".to_string() };
    assert_eq!(c.clone(), c);
}

#[test]
fn endpoint_urls() {
    let e = LlmEndpoint::new("https://api.openai.com//", "gpt-4o", "k".to_string());
    assert_eq!(e.api_endpoint, "https://api.openai.com");
    assert_eq!(e.model, "gpt-4o");
    assert_eq!(e.chat_url(), "https://api.openai.com/v1/chat/completions");
    assert_eq!(e.authorization(), "Bearer k");
}

#[test]
fn llm_error_quotes_at_most_500_chars() {
    assert_eq!(LlmEndpoint::error_message("404 Not Found", "missing"), "LLM API error (404 Not Found): missing");
    let body = "é".repeat(600);
    let m = LlmEndpoint::error_message("500", &body);
    assert_eq!(m, format!("LLM API error (500): {}", "é".repeat(500)));
}

#[test]
fn post_endpoints() {
    assert_eq!(post_endpoint("http://h:1", " /messages?s=1 \n"), "http://h:1/messages?s=1");
    assert_eq!(post_endpoint("http://h:1", "https://other/x"), "https://other/x");
    assert_eq!(endpoint_from_event("http://h", "endpoint", "/m"), Some("http://h/m".to_string()));
    assert_eq!(endpoint_from_event("http://h", "message", "/m"), None);
}

#[test]
fn json_content_types() {
    assert!(is_json_content("application/json; charset=utf-8"));
    assert!(!is_json_content("text/event-stream"));
    assert!(!is_json_content(""));
}

#[test]
fn rpc_replies() {
    assert_eq!(match_rpc_reply("s", 3, Some(4), &None), RpcReply::Unrelated);
    assert_eq!(match_rpc_reply("s", 3, None, &None), RpcReply::Unrelated);
    assert_eq!(match_rpc_reply("s", 3, Some(3), &None), RpcReply::Answer);
    let e = Some(JsonRpcError { code: -32601, message: "Method not found".to_string() });
    assert_eq!(
        match_rpc_reply("srv", 3, Some(3), &e),
        RpcReply::Failed("MCP server 'srv' error: [-32601] Method not found".to_string())
    );
    let e = Some(JsonRpcError { code: 0, message: "m".to_string() });
    assert_eq!(match_rpc_reply("s", 1, Some(1), &e), RpcReply::Failed("MCP server 's' error: [0] m".to_string()));
}

#[test]
fn tool_definitions() {
    let d = ToolDefinition::new("n".to_string(), None, "{}".to_string());
    assert_eq!(d.kind, "function");
    assert_eq!(d.function.name, "n");
    let t = McpTool { name: "x".to_string(), description: Some("d".to_string()), inputSchema: "{\"a\":1}".to_string() };
    let d = mcp_tool_to_openai(&t);
    assert_eq!(d.function.description.as_deref(), Some("d"));
    assert_eq!(d.function.parameters, "{\"a\":1}");
    assert_eq!(d.clone(), d);
}

#[test]
fn mcp_http_error_quotes_at_most_300_chars() {
    assert_eq!(http_error_message("s", "502 Bad Gateway", "oops"), "MCP server 's' error (502 Bad Gateway): oops");
    let body = "ab".repeat(200);
    assert_eq!(http_error_message("s", "500", &body), format!("MCP server 's' error (500): {}", &body[..300]));
}

#[test]
fn tool_choice_is_auto_only_with_tools() {
    assert_eq!(LlmEndpoint::tool_choice(true), Some("auto".to_string()));
    assert_eq!(LlmEndpoint::tool_choice(false), None);
}
