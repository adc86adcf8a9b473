//! The decisions of the interactive loop: what a typed line asks for,
//! the `/skill` command, resetting the conversation, and each step of an
//! agent turn, as functions from state and event to next state and action.

use vstd::prelude::*;
use vstd::string::{StrSliceExecFns, StringExecFns, StringSliceAdditionalSpecFns};
use vstd::utf8::{decode_utf8, encode_utf8, is_char_boundary};
use crate::skills::{has_skill, set_enabled_spec, system_prompt_spec, SkillManager};
use crate::text::{has_prefix, is_ws, is_whitespace, str_eq, starts_with, substring, trim, trim_spec, chars_of};
use crate::types::{ChatMessage, Choice, ToolCall, ToolDefinition};

verus! {

/// What a line typed at the prompt asks for.
#[derive(Debug, PartialEq, Eq)]
pub enum ReplCommand {
    /// Nothing but white space.
    Empty,
    /// `/quit` or `/exit`.
    Quit,
    /// `/clear`.
    Clear,
    /// `/tools`.
    Tools,
    /// `/skills`.
    Skills,
    /// `/help`.
    Help,
    /// `/skill ` and the rest of the line.
    Skill(String),
    /// Any other line that starts with `/`.
    Unknown(String),
    /// A message for the model.
    Message(String),
}

/// A REPL command as plain values.
pub enum ReplCommandView {
    Empty,
    Quit,
    Clear,
    Tools,
    Skills,
    Help,
    Skill(Seq<char>),
    Unknown(Seq<char>),
    Message(Seq<char>),
}

impl View for ReplCommand {
    type V = ReplCommandView;

    open spec fn view(&self) -> ReplCommandView {
        match self {
            ReplCommand::Empty => ReplCommandView::Empty,
            ReplCommand::Quit => ReplCommandView::Quit,
            ReplCommand::Clear => ReplCommandView::Clear,
            ReplCommand::Tools => ReplCommandView::Tools,
            ReplCommand::Skills => ReplCommandView::Skills,
            ReplCommand::Help => ReplCommandView::Help,
            ReplCommand::Skill(s) => ReplCommandView::Skill(s@),
            ReplCommand::Unknown(s) => ReplCommandView::Unknown(s@),
            ReplCommand::Message(s) => ReplCommandView::Message(s@),
        }
    }
}

/// What a typed line asks for, judged on the line without the white
/// space at its ends.
pub open spec fn repl_command_spec(line: Seq<char>) -> ReplCommandView {
    let t = trim_spec(line);
    if t.len() == 0 {
        ReplCommandView::Empty
    } else if t[0] != '/' {
        ReplCommandView::Message(t)
    } else if t == "/quit"@ || t == "/exit"@ {
        ReplCommandView::Quit
    } else if t == "/clear"@ {
        ReplCommandView::Clear
    } else if t == "/tools"@ {
        ReplCommandView::Tools
    } else if t == "/skills"@ {
        ReplCommandView::Skills
    } else if t == "/help"@ {
        ReplCommandView::Help
    } else if has_prefix(t, "/skill "@) {
        ReplCommandView::Skill(t.skip(7))
    } else {
        ReplCommandView::Unknown(t)
    }
}

/// A line is ignored exactly when it is nothing but white space, and any
/// line whose trimmed text does not start with `/` is a message of that
/// trimmed text, however short; a line whose trimmed text starts with `/`
/// is never a message.
pub proof fn law_plain_line_is_message(line: Seq<char>)
    ensures
        (repl_command_spec(line) is Empty) <==> trim_spec(line).len() == 0,
        trim_spec(line).len() > 0 && trim_spec(line)[0] != '/' ==> repl_command_spec(line)
            == ReplCommandView::Message(trim_spec(line)),
        trim_spec(line).len() > 0 && trim_spec(line)[0] == '/' ==> !(repl_command_spec(line) is Message),
{
}

/// Reads a line typed at the prompt.
pub fn parse_repl_line(line: &str) -> (r: ReplCommand)
    ensures
        r@ == repl_command_spec(line@),
{
    let t = trim(line);
    let n = t.unicode_len();
    if n == 0 {
        return ReplCommand::Empty;
    }
    if t.get_char(0) != '/' {
        return ReplCommand::Message(t.to_owned());
    }
    if str_eq(t, "/quit") || str_eq(t, "/exit") {
        ReplCommand::Quit
    } else if str_eq(t, "/clear") {
        ReplCommand::Clear
    } else if str_eq(t, "/tools") {
        ReplCommand::Tools
    } else if str_eq(t, "/skills") {
        ReplCommand::Skills
    } else if str_eq(t, "/help") {
        ReplCommand::Help
    } else if starts_with(t, "/skill ") {
        proof {
            reveal_strlit("/skill ");
        }
        ReplCommand::Skill(substring(t, 7, n))
    } else {
        ReplCommand::Unknown(t.to_owned())
    }
}

/// The first index `>= i` of a white-space character of `t`, if any.
pub open spec fn first_ws_from(t: Seq<char>, i: int) -> Option<int>
    decreases t.len() - i,
{
    if i < 0 || i >= t.len() {
        None
    } else if is_ws(t[i]) {
        Some(i)
    } else {
        first_ws_from(t, i + 1)
    }
}

/// `t` split at its first white-space character (which is dropped), as
/// `splitn(2, char::is_whitespace)` splits it; `None` when `t` has none.
pub open spec fn split_once_ws(t: Seq<char>) -> Option<(Seq<char>, Seq<char>)> {
    match first_ws_from(t, 0) {
        Some(i) => Some((t.take(i), t.skip(i + 1))),
        None => None,
    }
}

/// Splits `t` at its first white-space character.
fn split_once_whitespace(t: &str) -> (r: Option<(String, String)>)
    ensures
        match split_once_ws(t@) {
            Some((a, b)) => r matches Some(p) && p.0@ == a && p.1@ == b,
            None => r is None,
        },
{
    let v = chars_of(t);
    let n = v.len();
    let mut i: usize = 0;
    while i < n
        invariant
            n == t@.len(),
            v@ == t@,
            i <= n,
            first_ws_from(t@, 0) == first_ws_from(t@, i as int),
        decreases n - i,
    {
        if is_whitespace(v[i]) {
            return Some((substring(t, 0, i), substring(t, i + 1, n)));
        }
        i = i + 1;
    }
    None
}

/// What the `/skill` command did.
#[derive(Debug, PartialEq, Eq)]
pub enum SkillCommandOutcome {
    /// The command was not `on <name>` or `off <name>`.
    Usage,
    /// No skill has the name.
    NotFound(String),
    /// The skill was switched on.
    Enabled(String),
    /// The skill was switched off.
    Disabled(String),
}

/// The conversation after its system prompt is set to `prompt` and every
/// later message dropped; a conversation that does not open with a system
/// message keeps its first message.
pub open spec fn rebuilt_spec(conversation: Seq<ChatMessage>, prompt: Seq<char>, result: Seq<ChatMessage>) -> bool {
    &&& result.len() == 1
    &&& if conversation.len() == 0 || conversation[0] is System {
        result[0] matches ChatMessage::System { content } && content@ == prompt
    } else {
        result[0] == conversation[0]
    }
}

/// Sets the conversation's system prompt to the one built from the skills
/// and drops every later message.
pub fn rebuild_system_prompt(conversation: &mut Vec<ChatMessage>, skill_mgr: &SkillManager, base_prompt: &str)
    ensures
        rebuilt_spec(old(conversation)@, system_prompt_spec(base_prompt@, skill_mgr@), final(conversation)@),
{
    let new_prompt = skill_mgr.build_system_prompt(base_prompt);
    if conversation.len() > 0 {
        let is_system = match &conversation[0] {
            ChatMessage::System { .. } => true,
            _ => false,
        };
        if is_system {
            conversation.set(0, ChatMessage::System { content: new_prompt });
        }
    } else {
        conversation.push(ChatMessage::System { content: new_prompt });
    }
    conversation.truncate(1);
}

/// Runs the `/skill` command whose arguments are `rest`: `on <name>` or
/// `off <name>` switches the skill and resets the conversation to the new
/// system prompt.
pub fn handle_skill_command(
    rest: &str,
    skill_mgr: &mut SkillManager,
    conversation: &mut Vec<ChatMessage>,
    base_prompt: &str,
) -> (r: SkillCommandOutcome)
    requires
        old(skill_mgr).wf(),
    ensures
        final(skill_mgr).wf(),
        match split_once_ws(trim_spec(rest@)) {
            Some((action, name)) => if action == "on"@ || action == "off"@ {
                let on = action == "on"@;
                if has_skill(old(skill_mgr)@, name) {
                    &&& final(skill_mgr)@ == set_enabled_spec(old(skill_mgr)@, name, on)
                    &&& rebuilt_spec(
                        old(conversation)@,
                        system_prompt_spec(base_prompt@, final(skill_mgr)@),
                        final(conversation)@,
                    )
                    &&& if on {
                        r matches SkillCommandOutcome::Enabled(n) && n@ == name
                    } else {
                        r matches SkillCommandOutcome::Disabled(n) && n@ == name
                    }
                } else {
                    &&& final(skill_mgr)@ == old(skill_mgr)@
                    &&& final(conversation)@ == old(conversation)@
                    &&& r matches SkillCommandOutcome::NotFound(n) && n@ == name
                }
            } else {
                &&& final(skill_mgr)@ == old(skill_mgr)@
                &&& final(conversation)@ == old(conversation)@
                &&& r is Usage
            },
            None => {
                &&& final(skill_mgr)@ == old(skill_mgr)@
                &&& final(conversation)@ == old(conversation)@
                &&& r is Usage
            },
        },
{
    let parts = split_once_whitespace(trim(rest));
    let (action, name) = match parts {
        Some(p) => p,
        None => return SkillCommandOutcome::Usage,
    };
    let on = str_eq(action.as_str(), "on");
    let off = str_eq(action.as_str(), "off");
    if !on && !off {
        return SkillCommandOutcome::Usage;
    }
    let ghost before = skill_mgr@;
    let found = if on {
        skill_mgr.enable(name.as_str())
    } else {
        skill_mgr.disable(name.as_str())
    };
    if !found {
        assert(skill_mgr@ =~= before);
        return SkillCommandOutcome::NotFound(name);
    }
    rebuild_system_prompt(conversation, skill_mgr, base_prompt);
    if on {
        SkillCommandOutcome::Enabled(name)
    } else {
        SkillCommandOutcome::Disabled(name)
    }
}

/// `s` cut to its first `max_len` bytes with `"..."` appended, or `s`
/// itself when it has no more than `max_len` bytes. The cut must fall on a
/// character boundary.
pub fn truncate_str(s: &str, max_len: usize) -> (r: String)
    requires
        s.spec_bytes().len() <= usize::MAX,
        s.spec_bytes().len() <= max_len || is_char_boundary(s.spec_bytes(), max_len as int),
    ensures
        s.spec_bytes().len() <= max_len ==> r@ == s@,
        s.spec_bytes().len() > max_len ==> r@ == decode_utf8(s.spec_bytes().take(max_len as int)) + "..."@,
{
    broadcast use vstd::utf8::encode_utf8_decode_utf8;

    if s.len() <= max_len {
        s.to_owned()
    } else {
        let (head, _tail) = s.split_at(max_len);
        assert(head.spec_bytes() == encode_utf8(head@));
        assert(decode_utf8(head.spec_bytes()) == head@);
        assert(s.spec_bytes().take(max_len as int) == s.spec_bytes().subrange(0, max_len as int));
        let mut r = head.to_owned();
        r.append("...");
        r
    }
}

/// What happened during an agent turn.
pub enum AgentEvent {
    /// The user typed a message for the model.
    UserMessage(String),
    /// The request to the model failed.
    ChatFailed,
    /// The model answered with this choice.
    Replied(Choice),
    /// The requested tool calls ran; each with its text or its error.
    ToolResults(Vec<(ToolCall, Result<String, String>)>),
}

/// What the loop does next.
#[derive(Debug, PartialEq, Eq)]
pub enum AgentAction {
    /// Ask the model, with the conversation as it now stands.
    AskModel,
    /// The turn ends with the model's answer; its text, if it has one, is shown.
    Reply(Option<String>),
    /// Run these tool calls (all of them, in any order) and report back.
    RunTools(Vec<ToolCall>),
    /// The turn ends: the model stopped for this unexpected reason.
    Unexpected(String),
    /// The turn ends without an answer.
    Abandon,
}

/// The text of an assistant message, if it has one.
pub open spec fn reply_text(m: ChatMessage) -> Option<String> {
    match m {
        ChatMessage::Assistant { content, .. } => content,
        _ => None,
    }
}

/// The tool calls of an assistant message (none for other messages).
pub open spec fn requested_calls(m: ChatMessage) -> Seq<ToolCall> {
    match m {
        ChatMessage::Assistant { tool_calls: Some(calls), .. } => calls@,
        _ => Seq::empty(),
    }
}

/// The text a tool result is reported with: the tool's text, or
/// `Error: ` and the error.
pub open spec fn tool_result_text(result: Result<String, String>) -> Seq<char> {
    match result {
        Ok(text) => text@,
        Err(e) => "Error: "@ + e@,
    }
}

/// `m` reports the result of a tool call to the model.
pub open spec fn is_tool_report(m: ChatMessage, item: (ToolCall, Result<String, String>)) -> bool {
    m matches ChatMessage::Tool { tool_call_id, content } && tool_call_id == item.0.id && content@
        == tool_result_text(item.1)
}

/// A message that reports a tool result carries the call's id, and, for a
/// tool that answered, the tool's text unchanged, whatever its length; for
/// a tool that failed, `Error: ` and the error.
pub proof fn law_tool_report_carries_text(m: ChatMessage, item: (ToolCall, Result<String, String>))
    requires
        is_tool_report(m, item),
    ensures
        match m {
            ChatMessage::Tool { tool_call_id, content } => {
                &&& tool_call_id == item.0.id
                &&& match item.1 {
                    Ok(text) => content@ == text@ && content@.len() == text@.len(),
                    Err(e) => content@ == "Error: "@ + e@,
                }
            },
            _ => false,
        },
{
}

/// One step of an agent turn: records `event` in the conversation and
/// says what to do next. A user message is added and the model asked; a
/// failed request drops the last message and ends the turn; the model's
/// message is added, and its finish reason decides: `stop` ends the turn
/// with its text, `tool_calls` asks for its tool calls to run, anything
/// else ends the turn; tool results are added, one message each, in
/// order, and the model asked again.
pub fn agent_step(conversation: &mut Vec<ChatMessage>, event: AgentEvent) -> (r: AgentAction)
    ensures
        match event {
            AgentEvent::UserMessage(text) => {
                &&& final(conversation)@ == old(conversation)@.push(ChatMessage::User { content: text })
                &&& r is AskModel
            },
            AgentEvent::ChatFailed => {
                &&& final(conversation)@ == if old(conversation)@.len() > 0 {
                    old(conversation)@.drop_last()
                } else {
                    old(conversation)@
                }
                &&& r is Abandon
            },
            AgentEvent::Replied(choice) => {
                &&& final(conversation)@ == old(conversation)@.push(choice.message)
                &&& if choice.finish_reason@ == "stop"@ {
                    r matches AgentAction::Reply(text) && text == reply_text(choice.message)
                } else if choice.finish_reason@ == "tool_calls"@ {
                    r matches AgentAction::RunTools(calls) && calls@ == requested_calls(choice.message)
                } else {
                    r matches AgentAction::Unexpected(reason) && reason@ == choice.finish_reason@
                }
            },
            AgentEvent::ToolResults(results) => {
                &&& final(conversation)@.len() == old(conversation)@.len() + results@.len()
                &&& final(conversation)@.take(old(conversation)@.len() as int) == old(conversation)@
                &&& forall|k: int|
                    0 <= k < results@.len() ==> is_tool_report(
                        #[trigger] final(conversation)@[old(conversation)@.len() + k],
                        results@[k],
                    )
                &&& forall|k: int|
                    0 <= k < results@.len() ==> match (
                        #[trigger] final(conversation)@[old(conversation)@.len() + k],
                        results@[k].1,
                    ) {
                        (ChatMessage::Tool { content, .. }, Ok(text)) => content@ == text@,
                        (ChatMessage::Tool { .. }, Err(_)) => true,
                        _ => false,
                    }
                &&& r is AskModel
            },
        },
{
    match event {
        AgentEvent::UserMessage(text) => {
            conversation.push(ChatMessage::User { content: text });
            AgentAction::AskModel
        },
        AgentEvent::ChatFailed => {
            let _ = conversation.pop();
            AgentAction::Abandon
        },
        AgentEvent::Replied(choice) => {
            let Choice { message, finish_reason, .. } = choice;
            let action = if str_eq(finish_reason.as_str(), "stop") {
                let text = match &message {
                    ChatMessage::Assistant { content, .. } => crate::types::clone_opt_string(content),
                    _ => None,
                };
                AgentAction::Reply(text)
            } else if str_eq(finish_reason.as_str(), "tool_calls") {
                let calls = match &message {
                    ChatMessage::Assistant { tool_calls: Some(calls), .. } => crate::types::clone_tool_calls(calls),
                    _ => Vec::new(),
                };
                AgentAction::RunTools(calls)
            } else {
                AgentAction::Unexpected(finish_reason)
            };
            conversation.push(message);
            action
        },
        AgentEvent::ToolResults(results) => {
            let ghost start = conversation@;
            let n = results.len();
            for i in 0..n
                invariant
                    n == results@.len(),
                    conversation@.len() == start.len() + i,
                    conversation@.take(start.len() as int) == start,
                    forall|k: int|
                        0 <= k < i ==> is_tool_report(
                            #[trigger] conversation@[start.len() + k],
                            results@[k],
                        ),
            {
                let item = &results[i];
                let content = match &item.1 {
                    Ok(text) => text.clone(),
                    Err(e) => {
                        let mut c = "Error: ".to_owned();
                        c.append(e.as_str());
                        c
                    },
                };
                let ghost before = conversation@;
                conversation.push(ChatMessage::Tool { tool_call_id: item.0.id.clone(), content });
                assert(conversation@.take(start.len() as int) =~= before.take(start.len() as int));
                assert forall|k: int| 0 <= k < i + 1 implies is_tool_report(
                    #[trigger] conversation@[start.len() + k],
                    results@[k],
                ) by {
                    if k < i {
                        assert(conversation@[start.len() + k] == before[start.len() + k]);
                    }
                }
            }
            AgentAction::AskModel
        },
    }
}

/// The tools to offer the model: none when there are none.
pub fn tools_for_request(tools: &Vec<ToolDefinition>) -> (r: Option<&[ToolDefinition]>)
    ensures
        tools@.len() == 0 ==> r is None,
        tools@.len() > 0 ==> (r matches Some(t) && t@ == tools@),
{
    if tools.len() == 0 {
        None
    } else {
        Some(tools.as_slice())
    }
}

/// A turn whose request fails right after the user's message leaves the
/// conversation as it was before the message.
pub proof fn law_failed_turn_leaves_conversation(before: Seq<ChatMessage>, message: ChatMessage)
    ensures
        ({
            let after_message = before.push(message);
            (if after_message.len() > 0 {
                after_message.drop_last()
            } else {
                after_message
            }) == before
        }),
{
    assert(before.push(message).drop_last() =~= before);
}

/// A cut text has at most `max_len + 3` bytes: the cut keeps exactly
/// `max_len` bytes, then three dots follow.
pub proof fn law_truncated_length(s: Seq<char>, max_len: nat)
    requires
        encode_utf8(s).len() > max_len,
        is_char_boundary(encode_utf8(s), max_len as int),
    ensures
        encode_utf8(decode_utf8(encode_utf8(s).take(max_len as int)) + "..."@).len() == max_len + 3,
{
    broadcast use vstd::utf8::encode_utf8_valid_utf8, vstd::utf8::valid_utf8_split,
        vstd::utf8::decode_utf8_encode_utf8;

    reveal_strlit("...");
    let b = encode_utf8(s);
    let head = b.take(max_len as int);
    assert(head == b.subrange(0, max_len as int));
    assert(vstd::utf8::valid_utf8(head));
    let d = decode_utf8(head);
    assert(encode_utf8(d) == head);
    lemma_encode_concat(d, "..."@);
    assert("..."@ == seq!['.', '.', '.']);
    assert(encode_utf8("..."@).len() == 3) by {
        reveal_with_fuel(encode_utf8, 4);
    }
}

/// The encoding of two texts one after the other is their encodings one
/// after the other.
proof fn lemma_encode_concat(a: Seq<char>, b: Seq<char>)
    ensures
        encode_utf8(a + b) == encode_utf8(a) + encode_utf8(b),
    decreases a.len(),
{
    if a.len() > 0 {
        lemma_encode_concat(a.drop_first(), b);
        assert((a + b).drop_first() =~= a.drop_first() + b);
        assert((a + b)[0] == a[0]);
    } else {
        assert(a + b =~= b);
    }
}

/// After the conversation is reset (`/clear`, or a switched skill), it
/// holds one message: the system prompt, when the conversation was empty or
/// opened with one.
pub proof fn law_reset_leaves_only_system_prompt(
    conversation: Seq<ChatMessage>,
    prompt: Seq<char>,
    result: Seq<ChatMessage>,
)
    requires
        rebuilt_spec(conversation, prompt, result),
        conversation.len() == 0 || conversation[0] is System,
    ensures
        result.len() == 1,
        result[0] matches ChatMessage::System { content } && content@ == prompt,
{
}

} // verus!
