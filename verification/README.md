# tiny-claw

A minimal agent command line: a REPL that talks to an OpenAI-compatible
chat-completions API, offers the tools of MCP servers (SSE transport) to the
model, runs the calls the model asks for, and adds optional "skills" (prompt
fragments loaded from `SKILL.md` files) to the system prompt.

## Layout

- `src/` — the library, verified with Verus:
  - `skills.rs`: skills, the system prompt built from them, switching skills,
    the sorted skill list, and splitting a skill file into frontmatter and body;
  - `tool_runner.rs`: the tool registry (tool → server → connection), which
    configured servers are kept or skipped, how a tool call is answered, and
    the text reported for a tool result;
  - `agent.rs`: what a typed line asks for, the `/skill` command, resetting the
    conversation, and each step of an agent turn;
  - `mcp_client.rs`, `llm_client.rs`: the decisions of the two HTTP clients;
  - `types.rs`, `config.rs`: the messages and settings as plain values;
  - `text.rs`: string helpers specified over characters and UTF-8 bytes.
- `app/` — the program: configuration files, HTTP and SSE, the terminal, and
  the serde forms of the messages.
- `tests/` — tests of the library.
