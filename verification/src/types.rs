//! The messages exchanged with the chat-completions API and with MCP
//! servers, as plain values. JSON documents the library only passes
//! along (tool parameter schemas) are held as their text.

use vstd::prelude::*;

verus! {

/// A copy of an optional string.
pub fn clone_opt_string(o: &Option<String>) -> (r: Option<String>)
    ensures
        r == *o,
{
    match o {
        Some(s) => Some(s.clone()),
        None => None,
    }
}

/// One message of a conversation.
#[allow(inconsistent_fields)]
#[derive(Debug, PartialEq, Eq)]
pub enum ChatMessage {
    System { content: String },
    User { content: String },
    Assistant { content: Option<String>, tool_calls: Option<Vec<ToolCall>> },
    Tool { tool_call_id: String, content: String },
}

/// A copy of a list of tool calls.
pub fn clone_tool_calls(calls: &Vec<ToolCall>) -> (r: Vec<ToolCall>)
    ensures
        r@ == calls@,
{
    let mut r: Vec<ToolCall> = Vec::new();
    for i in 0..calls.len()
        invariant
            r@ == calls@.take(i as int),
    {
        r.push(calls[i].clone());
        assert(calls@.take(i + 1) == calls@.take(i as int).push(calls@[i as int]));
    }
    assert(calls@.take(calls@.len() as int) == calls@);
    r
}

/// A tool offered to the model, in the chat-completions format.
#[derive(Debug, PartialEq, Eq)]
pub struct ToolDefinition {
    /// Always `"function"`.
    pub kind: String,
    pub function: FunctionDef,
}

/// The function a tool definition describes.
#[derive(Debug, PartialEq, Eq)]
pub struct FunctionDef {
    pub name: String,
    pub description: Option<String>,
    /// The JSON schema of the arguments, as JSON text.
    pub parameters: String,
}

/// A tool definition as plain values.
pub struct ToolDefinitionView {
    pub kind: Seq<char>,
    pub name: Seq<char>,
    pub description: Option<Seq<char>>,
    pub parameters: Seq<char>,
}

impl View for ToolDefinition {
    type V = ToolDefinitionView;

    open spec fn view(&self) -> ToolDefinitionView {
        ToolDefinitionView {
            kind: self.kind@,
            name: self.function.name@,
            description: match self.function.description {
                Some(d) => Some(d@),
                None => None,
            },
            parameters: self.function.parameters@,
        }
    }
}

impl ToolDefinition {
    /// A `"function"` tool with the given name, description and
    /// parameter schema.
    pub fn new(name: String, description: Option<String>, parameters: String) -> (r: Self)
        ensures
            r.kind@ == "function"@,
            r.function.name == name,
            r.function.description == description,
            r.function.parameters == parameters,
    {
        ToolDefinition { kind: "function".to_owned(), function: FunctionDef { name, description, parameters } }
    }
}

impl Clone for FunctionDef {
    fn clone(&self) -> (r: Self)
        ensures
            r == *self,
    {
        FunctionDef {
            name: self.name.clone(),
            description: clone_opt_string(&self.description),
            parameters: self.parameters.clone(),
        }
    }
}

impl Clone for ToolDefinition {
    fn clone(&self) -> (r: Self)
        ensures
            r == *self,
    {
        ToolDefinition { kind: self.kind.clone(), function: self.function.clone() }
    }
}

/// A call of a tool that the model asks for.
#[derive(Debug, PartialEq, Eq)]
pub struct ToolCall {
    pub id: String,
    /// Always `"function"`.
    pub kind: String,
    pub function: FunctionCall,
}

/// The function a tool call names, and its arguments as JSON text.
#[derive(Debug, PartialEq, Eq)]
pub struct FunctionCall {
    pub name: String,
    pub arguments: String,
}

impl Clone for FunctionCall {
    fn clone(&self) -> (r: Self)
        ensures
            r == *self,
    {
        FunctionCall { name: self.name.clone(), arguments: self.arguments.clone() }
    }
}

impl Clone for ToolCall {
    fn clone(&self) -> (r: Self)
        ensures
            r == *self,
    {
        ToolCall { id: self.id.clone(), kind: self.kind.clone(), function: self.function.clone() }
    }
}

/// A chat-completions response.
#[derive(Debug, PartialEq, Eq)]
pub struct ChatResponse {
    pub id: String,
    pub choices: Vec<Choice>,
    pub usage: Option<Usage>,
}

/// One choice of a response.
#[derive(Debug, PartialEq, Eq)]
pub struct Choice {
    pub index: u32,
    pub message: ChatMessage,
    pub finish_reason: String,
}

/// Token counts of a response.
#[derive(Debug, PartialEq, Eq)]
pub struct Usage {
    pub prompt_tokens: u32,
    pub completion_tokens: u32,
    pub total_tokens: u32,
}

/// The error member of a JSON-RPC response.
#[derive(Debug, PartialEq, Eq)]
pub struct JsonRpcError {
    pub code: i64,
    pub message: String,
}

/// Who the client is, as it introduces itself to an MCP server.
#[derive(Debug, PartialEq, Eq)]
pub struct ClientInfo {
    pub name: String,
    pub version: String,
}

/// A tool as an MCP server lists it.
#[allow(non_snake_case)]
#[derive(Debug, PartialEq, Eq)]
pub struct McpTool {
    pub name: String,
    pub description: Option<String>,
    /// The JSON schema of the arguments, as JSON text.
    pub inputSchema: String,
}

/// What an MCP server answers to a tool call.
#[derive(Debug, PartialEq, Eq)]
pub struct McpToolResult {
    pub content: Vec<McpContent>,
    pub is_error: bool,
}

/// One part of a tool result.
#[derive(Debug, PartialEq, Eq)]
pub struct McpContent {
    pub content_type: String,
    pub text: Option<String>,
}

/// The chat-completions definition of an MCP tool: same name, description
/// and schema.
pub fn mcp_tool_to_openai(tool: &McpTool) -> (r: ToolDefinition)
    ensures
        r.kind@ == "function"@,
        r.function.name == tool.name,
        r.function.description == tool.description,
        r.function.parameters == tool.inputSchema,
{
    ToolDefinition::new(tool.name.clone(), clone_opt_string(&tool.description), tool.inputSchema.clone())
}

} // verus!
