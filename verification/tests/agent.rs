use tiny_claw::agent::{
    agent_step, handle_skill_command, parse_repl_line, rebuild_system_prompt, tools_for_request,
    truncate_str, AgentAction, AgentEvent, ReplCommand, SkillCommandOutcome,
};
use tiny_claw::skills::{Skill, SkillManager};
use tiny_claw::types::{ChatMessage, Choice, FunctionCall, ToolCall, ToolDefinition};

fn system(s: &str) -> ChatMessage {
    ChatMessage::System { content: s.to_string() }
}

fn user(s: &str) -> ChatMessage {
    ChatMessage::User { content: s.to_string() }
}

fn call(id: &str, name: &str) -> ToolCall {
    ToolCall {
        id: id.to_string(),
        kind: "function".to_string(),
        function: FunctionCall { name: name.to_string(), arguments: "{}".to_string() },
    }
}

fn manager() -> SkillManager {
    SkillManager::from_skills(vec![Skill {
        name: "poet".to_string(),
        description: None,
        enabled: false,
        content: "Rhyme.".to_string(),
        path: "/s/poet".to_string(),
    }])
}

#[test]
fn repl_commands() {
    assert_eq!(parse_repl_line("   "), ReplCommand::Empty);
    assert_eq!(parse_repl_line("/quit"), ReplCommand::Quit);
    assert_eq!(parse_repl_line("  /exit \n"), ReplCommand::Quit);
    assert_eq!(parse_repl_line("/clear"), ReplCommand::Clear);
    assert_eq!(parse_repl_line("/tools"), ReplCommand::Tools);
    assert_eq!(parse_repl_line("/skills"), ReplCommand::Skills);
    assert_eq!(parse_repl_line("/help"), ReplCommand::Help);
    assert_eq!(parse_repl_line("/skill on poet"), ReplCommand::Skill("on poet".to_string()));
    assert_eq!(parse_repl_line("/skill"), ReplCommand::Unknown("/skill".to_string()));
    assert_eq!(parse_repl_line("/nope"), ReplCommand::Unknown("/nope".to_string()));
    assert_eq!(parse_repl_line("  hello there \n"), ReplCommand::Message("hello there".to_string()));
}

#[test]
fn skill_command_on_and_off() {
    let mut m = manager();
    let mut conv = vec![system("old"), user("hi")];
    let r = handle_skill_command("on poet", &mut m, &mut conv, "Base.");
    assert_eq!(r, SkillCommandOutcome::Enabled("poet".to_string()));
    assert_eq!(conv, vec![system("Base.\n\n# Skills\n\n## poet\n\nRhyme.\n")]);
    let r = handle_skill_command(" off poet ", &mut m, &mut conv, "Base.");
    assert_eq!(r, SkillCommandOutcome::Disabled("poet".to_string()));
    assert_eq!(conv, vec![system("Base.")]);
}

#[test]
fn skill_command_errors() {
    let mut m = manager();
    let mut conv = vec![system("s"), user("u")];
    assert_eq!(handle_skill_command("on", &mut m, &mut conv, "B"), SkillCommandOutcome::Usage);
    assert_eq!(handle_skill_command("flip poet", &mut m, &mut conv, "B"), SkillCommandOutcome::Usage);
    assert_eq!(handle_skill_command("", &mut m, &mut conv, "B"), SkillCommandOutcome::Usage);
    assert_eq!(
        handle_skill_command("on ghost", &mut m, &mut conv, "B"),
        SkillCommandOutcome::NotFound("ghost".to_string())
    );
    assert_eq!(conv, vec![system("s"), user("u")]);
    // the name keeps what follows the first white space
    assert_eq!(
        handle_skill_command("on  poet", &mut m, &mut conv, "B"),
        SkillCommandOutcome::NotFound(" poet".to_string())
    );
}

#[test]
fn rebuild_keeps_only_the_system_prompt() {
    let m = manager();
    let mut conv = vec![system("old"), user("a"), user("b")];
    rebuild_system_prompt(&mut conv, &m, "New.");
    assert_eq!(conv, vec![system("New.")]);
    let mut empty = vec![];
    rebuild_system_prompt(&mut empty, &m, "New.");
    assert_eq!(empty, vec![system("New.")]);
    let mut no_system = vec![user("a"), user("b")];
    rebuild_system_prompt(&mut no_system, &m, "New.");
    assert_eq!(no_system, vec![user("a")]);
}

#[test]
fn truncate_short_and_long() {
    assert_eq!(truncate_str("hello", 10), "hello");
    assert_eq!(truncate_str("hello", 5), "hello");
    assert_eq!(truncate_str("hello world", 5), "hello...");
    assert_eq!(truncate_str("héllo", 3), "hé...");
    assert_eq!(truncate_str("", 0), "");
    let long = "x".repeat(300);
    assert_eq!(truncate_str(&long, 200).len(), 203);
}

#[test]
fn failed_turn_leaves_conversation() {
    let mut conv = vec![system("s")];
    let before = vec![system("s")];
    assert_eq!(agent_step(&mut conv, AgentEvent::UserMessage("hi".to_string())), AgentAction::AskModel);
    assert_eq!(conv, vec![system("s"), user("hi")]);
    assert_eq!(agent_step(&mut conv, AgentEvent::ChatFailed), AgentAction::Abandon);
    assert_eq!(conv, before);
}

#[test]
fn reply_stop_ends_turn() {
    let mut conv = vec![system("s"), user("hi")];
    let msg = ChatMessage::Assistant { content: Some("Hello!".to_string()), tool_calls: None };
    let choice = Choice {
        index: 0,
        message: ChatMessage::Assistant { content: Some("Hello!".to_string()), tool_calls: None },
        finish_reason: "stop".to_string(),
    };
    assert_eq!(agent_step(&mut conv, AgentEvent::Replied(choice)), AgentAction::Reply(Some("Hello!".to_string())));
    assert_eq!(conv.last(), Some(&msg));
}

#[test]
fn reply_tool_calls_then_results() {
    let mut conv = vec![user("hi")];
    let calls = vec![call("c1", "read"), call("c2", "write")];
    let msg = ChatMessage::Assistant { content: None, tool_calls: Some(calls.clone()) };
    let choice = Choice { index: 0, message: msg, finish_reason: "tool_calls".to_string() };
    assert_eq!(agent_step(&mut conv, AgentEvent::Replied(choice)), AgentAction::RunTools(calls.clone()));
    let results = vec![(calls[0].clone(), Ok("done".to_string())), (calls[1].clone(), Err("boom".to_string()))];
    assert_eq!(agent_step(&mut conv, AgentEvent::ToolResults(results)), AgentAction::AskModel);
    assert_eq!(conv.len(), 4);
    assert_eq!(conv[2], ChatMessage::Tool { tool_call_id: "c1".to_string(), content: "done".to_string() });
    assert_eq!(conv[3], ChatMessage::Tool { tool_call_id: "c2".to_string(), content: "Error: boom".to_string() });
}

#[test]
fn tool_calls_without_calls_asks_again() {
    let mut conv = vec![];
    let msg = ChatMessage::Assistant { content: Some("x".to_string()), tool_calls: None };
    let choice = Choice { index: 0, message: msg, finish_reason: "tool_calls".to_string() };
    assert_eq!(agent_step(&mut conv, AgentEvent::Replied(choice)), AgentAction::RunTools(vec![]));
}

#[test]
fn unexpected_finish_reason() {
    let mut conv = vec![];
    let msg = ChatMessage::Assistant { content: None, tool_calls: None };
    let choice = Choice { index: 0, message: msg, finish_reason: "length".to_string() };
    assert_eq!(agent_step(&mut conv, AgentEvent::Replied(choice)), AgentAction::Unexpected("length".to_string()));
    assert_eq!(conv.len(), 1);
}

#[test]
fn no_tools_offers_none() {
    assert!(tools_for_request(&vec![]).is_none());
    let tools = vec![ToolDefinition::new("t".to_string(), None, "{}".to_string())];
    assert_eq!(tools_for_request(&tools).map(|t| t.len()), Some(1));
}
