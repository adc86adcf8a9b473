//! Core logic of a small agent command line: skills and the system prompt
//! built from them, tool routing across MCP servers, the MCP client's and
//! the chat client's decisions, the REPL's and the agent loop's decisions,
//! and the text helpers they rest on.

pub mod agent;
pub mod config;
pub mod llm_client;
pub mod mcp_client;
pub mod skills;
pub mod text;
pub mod tool_runner;
pub mod types;
