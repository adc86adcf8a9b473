//! The tool registry: which MCP server offers each tool, the connection to
//! each server, and the tool definitions offered to the model; and the
//! decisions around a tool call.

use vstd::prelude::*;
use vstd::string::StringExecFns;
use crate::config::McpServerConfig;
use crate::text::str_eq;
use crate::types::{mcp_tool_to_openai, McpContent, McpTool, McpToolResult, ToolCall, ToolDefinition, ToolDefinitionView};

verus! {

/// The pairs of an association list, keys as text.
pub open spec fn pairs_view<V>(m: Seq<(String, V)>) -> Seq<(Seq<char>, V)> {
    m.map_values(|p: (String, V)| (p.0@, p.1))
}

/// No key occurs twice.
pub open spec fn keys_unique<V>(m: Seq<(Seq<char>, V)>) -> bool {
    forall|i: int, j: int| 0 <= i < m.len() && 0 <= j < m.len() && i != j ==> m[i].0 != m[j].0
}

/// The value stored under `k`, if any.
pub open spec fn lookup<V>(m: Seq<(Seq<char>, V)>, k: Seq<char>) -> Option<V>
    decreases m.len(),
{
    if m.len() == 0 {
        None
    } else if m.last().0 == k {
        Some(m.last().1)
    } else {
        lookup(m.drop_last(), k)
    }
}

/// The list after storing `v` under `k`: in place of an existing entry for
/// `k`, or last.
pub open spec fn assoc_insert<V>(m: Seq<(Seq<char>, V)>, k: Seq<char>, v: V) -> Seq<(Seq<char>, V)> {
    if lookup(m, k) is Some {
        m.map_values(|p: (Seq<char>, V)| if p.0 == k { (k, v) } else { p })
    } else {
        m.push((k, v))
    }
}

/// With unique keys, `lookup` finds the entry of `k`.
pub proof fn lemma_lookup_found<V>(m: Seq<(Seq<char>, V)>, k: Seq<char>, i: int)
    requires
        keys_unique(m),
        0 <= i < m.len(),
        m[i].0 == k,
    ensures
        lookup(m, k) == Some(m[i].1),
    decreases m.len(),
{
    if i < m.len() - 1 {
        assert(m.last().0 != k);
        assert(m.drop_last()[i] == m[i]);
        lemma_lookup_found(m.drop_last(), k, i);
    }
}

/// `lookup` finds nothing for a key that no entry has.
pub proof fn lemma_lookup_absent<V>(m: Seq<(Seq<char>, V)>, k: Seq<char>)
    requires
        forall|j: int| 0 <= j < m.len() ==> m[j].0 != k,
    ensures
        lookup(m, k) is None,
    decreases m.len(),
{
    if m.len() > 0 {
        assert(m.last().0 == m[m.len() - 1].0);
        assert forall|j: int| 0 <= j < m.drop_last().len() implies m.drop_last()[j].0 != k by {
            assert(m.drop_last()[j] == m[j]);
        }
        lemma_lookup_absent(m.drop_last(), k);
    }
}

/// What `lookup` finds is the value of some entry of that key.
pub proof fn lemma_lookup_some<V>(m: Seq<(Seq<char>, V)>, k: Seq<char>)
    requires
        lookup(m, k) is Some,
    ensures
        exists|i: int| 0 <= i < m.len() && m[i].0 == k && lookup(m, k) == Some(m[i].1),
    decreases m.len(),
{
    if m.last().0 == k {
        assert(m[m.len() - 1].0 == k);
    } else {
        lemma_lookup_some(m.drop_last(), k);
        let i = choose|i: int|
            0 <= i < m.drop_last().len() && m.drop_last()[i].0 == k && lookup(m.drop_last(), k) == Some(
                m.drop_last()[i].1,
            );
        assert(m.drop_last()[i] == m[i]);
    }
}

/// Storing under `k` makes `k` give back the new value and leaves every
/// other key as it was; keys stay unique.
pub proof fn lemma_assoc_insert<V>(m: Seq<(Seq<char>, V)>, k: Seq<char>, v: V)
    requires
        keys_unique(m),
    ensures
        keys_unique(assoc_insert(m, k, v)),
        lookup(assoc_insert(m, k, v), k) == Some(v),
        forall|k2: Seq<char>| k2 != k ==> lookup(assoc_insert(m, k, v), k2) == #[trigger] lookup(m, k2),
{
    let m2 = assoc_insert(m, k, v);
    if lookup(m, k) is Some {
        lemma_lookup_some(m, k);
        let i = choose|i: int| 0 <= i < m.len() && m[i].0 == k && lookup(m, k) == Some(m[i].1);
        assert(m2.len() == m.len());
        assert forall|a: int| 0 <= a < m.len() implies #[trigger] m2[a].0 == m[a].0 by {}
        assert(keys_unique(m2));
        assert(m2[i].0 == k && m2[i].1 == v);
        lemma_lookup_found(m2, k, i);
    } else {
        assert forall|j: int| 0 <= j < m.len() implies m[j].0 != k by {
            if m[j].0 == k {
                lemma_lookup_found(m, k, j);
            }
        }
        assert forall|a: int| 0 <= a < m.len() implies #[trigger] m2[a] == m[a] by {}
        assert(keys_unique(m2));
        assert(m2[m.len() as int].0 == k && m2[m.len() as int].1 == v);
        lemma_lookup_found(m2, k, m.len() as int);
    }
    assert forall|k2: Seq<char>| k2 != k implies lookup(m2, k2) == #[trigger] lookup(m, k2) by {
        if lookup(m, k2) is Some {
            lemma_lookup_some(m, k2);
            let i = choose|i: int| 0 <= i < m.len() && m[i].0 == k2 && lookup(m, k2) == Some(m[i].1);
            assert(m2[i] == m[i]);
            lemma_lookup_found(m2, k2, i);
        } else {
            assert forall|j: int| 0 <= j < m2.len() implies m2[j].0 != k2 by {
                if j < m.len() {
                    assert(m2[j].0 == k || m2[j] == m[j]);
                    if m[j].0 == k2 {
                        lemma_lookup_found(m, k2, j);
                    }
                }
            }
            lemma_lookup_absent(m2, k2);
        }
    }
}

/// The index of the entry for `k`, if any.
fn find_key<V>(m: &Vec<(String, V)>, k: &str) -> (r: Option<usize>)
    ensures
        match r {
            None => forall|j: int| 0 <= j < m@.len() ==> (#[trigger] m@[j]).0@ != k@,
            Some(i) => i < m@.len() && m@[i as int].0@ == k@,
        },
{
    let n = m.len();
    let mut i: usize = 0;
    while i < n
        invariant
            n == m@.len(),
            i <= n,
            forall|j: int| 0 <= j < i ==> (#[trigger] m@[j]).0@ != k@,
        decreases n - i,
    {
        if str_eq(m[i].0.as_str(), k) {
            return Some(i);
        }
        i = i + 1;
    }
    None
}

/// Stores `v` under `k`.
fn assoc_set<V>(m: &mut Vec<(String, V)>, k: String, v: V)
    requires
        keys_unique(pairs_view(old(m)@)),
    ensures
        pairs_view(final(m)@) == assoc_insert(pairs_view(old(m)@), k@, v),
{
    let ghost before = pairs_view(m@);
    let ghost kv = k@;
    match find_key(m, k.as_str()) {
        Some(i) => {
            proof {
                assert(before[i as int].0 == kv);
                lemma_lookup_found(before, kv, i as int);
            }
            m.set(i, (k, v));
            proof {
                assert forall|j: int| 0 <= j < before.len() && j != i implies before[j].0 != kv by {}
                assert(pairs_view(m@) =~= assoc_insert(before, kv, v));
            }
        },
        None => {
            proof {
                assert forall|j: int| 0 <= j < before.len() implies before[j].0 != kv by {
                    assert(before[j].0 == m@[j].0@);
                }
                lemma_lookup_absent(before, kv);
            }
            m.push((k, v));
            assert(pairs_view(m@) =~= assoc_insert(before, kv, v));
        },
    }
}

/// The routes after each of `names` is routed to `server`, in order.
pub open spec fn insert_routes(m: Seq<(Seq<char>, Seq<char>)>, names: Seq<Seq<char>>, server: Seq<char>) -> Seq<(Seq<char>, Seq<char>)>
    decreases names.len(),
{
    if names.len() == 0 {
        m
    } else {
        assoc_insert(insert_routes(m, names.drop_last(), server), names.last(), server)
    }
}

/// The chat-completions definition of an MCP tool, as plain values.
pub open spec fn openai_view(t: McpTool) -> ToolDefinitionView {
    ToolDefinitionView {
        kind: "function"@,
        name: t.name@,
        description: match t.description {
            Some(d) => Some(d@),
            None => None,
        },
        parameters: t.inputSchema@,
    }
}

/// The names of MCP tools.
pub open spec fn tool_names_of(tools: Seq<McpTool>) -> Seq<Seq<char>> {
    tools.map_values(|t: McpTool| t.name@)
}

/// The registry as plain values.
pub struct ToolRegistryView<C> {
    /// Tool name to the name of the server that offers it.
    pub routes: Seq<(Seq<char>, Seq<char>)>,
    /// Server name to its connection.
    pub connections: Seq<(Seq<char>, C)>,
    /// The definitions offered to the model, in the order they were added.
    pub tools: Seq<ToolDefinitionView>,
}

/// Which server offers each tool, the connection to each server, and the
/// tool definitions offered to the model.
pub struct ToolRegistry<C> {
    tool_to_server: Vec<(String, String)>,
    connections: Vec<(String, C)>,
    openai_tools: Vec<ToolDefinition>,
}

impl<C> View for ToolRegistry<C> {
    type V = ToolRegistryView<C>;

    closed spec fn view(&self) -> ToolRegistryView<C> {
        ToolRegistryView {
            routes: routes_view(self.tool_to_server@),
            connections: pairs_view(self.connections@),
            tools: self.openai_tools@.map_values(|t: ToolDefinition| t@),
        }
    }
}

/// Whether `text` is a JSON document, as `serde_json` reads one.
pub uninterp spec fn is_json(text: Seq<char>) -> bool;

/// Whether `serde_json::from_str::<serde_json::Value>` accepts `text`.
/// Trusted: the result is `is_json(text@)`; what `is_json` holds is
/// `serde_json`'s grammar and is not stated here.
#[verifier::external_body]
fn json_is_valid(text: &str) -> (r: bool)
    ensures
        r == is_json(text@),
{
    serde_json::from_str::<serde_json::Value>(text).is_ok()
}

/// The arguments sent with a tool call: the model's arguments when they
/// are JSON, else an empty object.
pub fn arguments_or_empty(arguments: &str, arguments_are_json: bool) -> (r: String)
    ensures
        arguments_are_json ==> r@ == arguments@,
        !arguments_are_json ==> r@ == "{}"@,
{
    if arguments_are_json {
        arguments.to_owned()
    } else {
        "{}".to_owned()
    }
}

/// What became of a configured server while the registry was built.
pub enum ServerSetup<C> {
    /// No connection could be opened; the error's text.
    ConnectFailed(String),
    /// The server refused the handshake; the error's text.
    InitializeFailed(String),
    /// The server did not list its tools; the error's text.
    ListFailed(String),
    /// The server is connected and lists these tools.
    Listed(C, Vec<McpTool>),
}

/// The warning for a server that was skipped, or `None` for one whose
/// tools were listed.
pub open spec fn setup_warning<C>(name: Seq<char>, url: Seq<char>, setup: ServerSetup<C>) -> Option<Seq<char>> {
    match setup {
        ServerSetup::ConnectFailed(e) => Some(
            "Could not connect to MCP server '"@ + name + "' at "@ + url + ": "@ + e@,
        ),
        ServerSetup::InitializeFailed(e) => Some("Failed to initialize MCP server '"@ + name + "': "@ + e@),
        ServerSetup::ListFailed(e) => Some("Failed to list tools from MCP server '"@ + name + "': "@ + e@),
        ServerSetup::Listed(_, _) => None,
    }
}

/// What to do with a tool call.
pub enum ToolCallPlan<'a, C> {
    /// Answer the model with this text without calling anything.
    Reply(String),
    /// Call the tool `name` on `connection` with `arguments` (JSON text).
    Call { connection: &'a C, name: String, arguments: String },
}

/// The texts of a tool result's parts, skipping parts without text.
pub open spec fn content_texts(content: Seq<McpContent>) -> Seq<Seq<char>>
    decreases content.len(),
{
    if content.len() == 0 {
        Seq::empty()
    } else {
        let rest = content_texts(content.drop_last());
        match content.last().text {
            Some(t) => rest.push(t@),
            None => rest,
        }
    }
}

/// `parts` joined with `sep` between each two.
pub open spec fn join_spec(parts: Seq<Seq<char>>, sep: Seq<char>) -> Seq<char>
    decreases parts.len(),
{
    if parts.len() == 0 {
        Seq::empty()
    } else if parts.len() == 1 {
        parts[0]
    } else {
        join_spec(parts.drop_last(), sep) + sep + parts.last()
    }
}

/// The text a tool call is answered with.
pub open spec fn call_result_spec(tool_name: Seq<char>, outcome: Result<McpToolResult, String>) -> Seq<char> {
    match outcome {
        Ok(result) => {
            let text = join_spec(content_texts(result.content@), "\n"@);
            if result.is_error {
                "Tool error: "@ + text
            } else {
                text
            }
        },
        Err(e) => "Error calling tool '"@ + tool_name + "': "@ + e@,
    }
}

/// The routed tool names, in order.
pub open spec fn route_names(routes: Seq<(Seq<char>, Seq<char>)>) -> Seq<Seq<char>> {
    routes.map_values(|p: (Seq<char>, Seq<char>)| p.0)
}

/// A result's parts yield no text exactly when none of them has text.
proof fn lemma_no_texts(content: Seq<McpContent>)
    ensures
        content_texts(content).len() == 0 <==> forall|i: int| 0 <= i < content.len() ==> (#[trigger] content[i]).text is None,
    decreases content.len(),
{
    if content.len() > 0 {
        lemma_no_texts(content.drop_last());
        if content_texts(content).len() == 0 {
            assert forall|i: int| 0 <= i < content.len() implies (#[trigger] content[i]).text is None by {
                if i < content.len() - 1 {
                    assert(content[i] == content.drop_last()[i]);
                }
            }
        }
        if forall|i: int| 0 <= i < content.len() ==> (#[trigger] content[i]).text is None {
            assert(content.last().text is None);
            assert forall|i: int| 0 <= i < content.drop_last().len() implies (
            #[trigger] content.drop_last()[i]).text is None by {
                assert(content[i] == content.drop_last()[i]);
            }
        }
    }
}

/// How the answer to a tool call grows with the result's parts: no parts
/// give the empty text; a further part with text adds `"\n"` and that text
/// (just the text when no earlier part had any); a further part without
/// text changes nothing; and a result the server flags as an error is
/// answered with `Tool error: ` before the same text.
pub proof fn law_tool_answer_joins_every_text(name: Seq<char>, r1: McpToolResult, r2: McpToolResult)
    ensures
        !r1.is_error && r1.content@.len() == 0 ==> call_result_spec(name, Ok(r1)) == Seq::<char>::empty(),
        !r1.is_error && !r2.is_error && r2.content@.len() == r1.content@.len() + 1 && r2.content@.drop_last()
            == r1.content@ ==> call_result_spec(name, Ok(r2)) == match r2.content@.last().text {
            Some(t) => if forall|i: int| 0 <= i < r1.content@.len() ==> (#[trigger] r1.content@[i]).text is None {
                t@
            } else {
                call_result_spec(name, Ok(r1)) + "\n"@ + t@
            },
            None => call_result_spec(name, Ok(r1)),
        },
        !r1.is_error && r2.is_error && r2.content@ == r1.content@ ==> call_result_spec(name, Ok(r2)) == "Tool error: "@
            + call_result_spec(name, Ok(r1)),
{
    lemma_no_texts(r1.content@);
    if !r1.is_error && !r2.is_error && r2.content@.len() == r1.content@.len() + 1 && r2.content@.drop_last()
        == r1.content@ {
        let prev = content_texts(r1.content@);
        assert(content_texts(r2.content@) == match r2.content@.last().text {
            Some(t) => prev.push(t@),
            None => prev,
        });
        if let Some(t) = r2.content@.last().text {
            let now = prev.push(t@);
            assert(now.drop_last() =~= prev);
            if prev.len() == 0 {
                assert(join_spec(now, "\n"@) == now[0]);
            }
        }
    }
}

/// Some offered definition is called `t`.
pub open spec fn offers_tool(tools: Seq<ToolDefinitionView>, t: Seq<char>) -> bool {
    exists|i: int| 0 <= i < tools.len() && tools[i].name == t
}

/// The registry's invariant: tool names and server names are unique, every
/// offered definition is a `"function"`, and the routed tools are exactly
/// the offered ones.
pub open spec fn registry_wf<C>(v: ToolRegistryView<C>) -> bool {
    &&& keys_unique(v.routes)
    &&& keys_unique(v.connections)
    &&& forall|i: int| 0 <= i < v.tools.len() ==> (#[trigger] v.tools[i]).kind == "function"@
    &&& forall|t: Seq<char>|
        #![trigger lookup(v.routes, t)]
        #![trigger offers_tool(v.tools, t)]
        (lookup(v.routes, t) is Some <==> offers_tool(v.tools, t))
}

/// The registry after a server called `server`, reached through
/// `connection`, lists `tools`.
pub open spec fn add_spec<C>(v: ToolRegistryView<C>, server: Seq<char>, connection: C, tools: Seq<McpTool>) -> ToolRegistryView<C> {
    ToolRegistryView {
        routes: insert_routes(v.routes, tool_names_of(tools), server),
        connections: assoc_insert(v.connections, server, connection),
        tools: v.tools + tools.map_values(|t: McpTool| openai_view(t)),
    }
}

/// Offering one more `"function"` definition and routing it keeps the
/// invariant.
proof fn lemma_register_tool<C>(v: ToolRegistryView<C>, server: Seq<char>, d: ToolDefinitionView)
    requires
        registry_wf(v),
        d.kind == "function"@,
    ensures
        registry_wf(
            ToolRegistryView {
                routes: assoc_insert(v.routes, d.name, server),
                connections: v.connections,
                tools: v.tools.push(d),
            },
        ),
{
    lemma_assoc_insert(v.routes, d.name, server);
    let v2 = ToolRegistryView {
        routes: assoc_insert(v.routes, d.name, server),
        connections: v.connections,
        tools: v.tools.push(d),
    };
    assert forall|i: int| 0 <= i < v2.tools.len() implies (#[trigger] v2.tools[i]).kind == "function"@ by {
        if i < v.tools.len() {
            assert(v2.tools[i] == v.tools[i]);
        }
    }
    assert forall|t: Seq<char>| (lookup(v2.routes, t) is Some <==> offers_tool(v2.tools, t)) by {
        if t == d.name {
            assert(v2.tools[v.tools.len() as int] == d);
        } else {
            assert(lookup(v2.routes, t) == lookup(v.routes, t));
            if offers_tool(v.tools, t) {
                let i = choose|i: int| 0 <= i < v.tools.len() && v.tools[i].name == t;
                assert(v2.tools[i] == v.tools[i]);
            }
            if offers_tool(v2.tools, t) {
                let i = choose|i: int| 0 <= i < v2.tools.len() && v2.tools[i].name == t;
                assert(i < v.tools.len());
                assert(v2.tools[i] == v.tools[i]);
            }
        }
    }
}

/// Storing a connection keeps the invariant.
proof fn lemma_register_connection<C>(v: ToolRegistryView<C>, server: Seq<char>, connection: C)
    requires
        registry_wf(v),
    ensures
        registry_wf(
            ToolRegistryView {
                routes: v.routes,
                connections: assoc_insert(v.connections, server, connection),
                tools: v.tools,
            },
        ),
{
    lemma_assoc_insert(v.connections, server, connection);
}

/// Routing the tools a server lists and offering their definitions keeps
/// the invariant.
proof fn lemma_register_tools<C>(v: ToolRegistryView<C>, server: Seq<char>, tools: Seq<McpTool>)
    requires
        registry_wf(v),
    ensures
        registry_wf(
            ToolRegistryView {
                routes: insert_routes(v.routes, tool_names_of(tools), server),
                connections: v.connections,
                tools: v.tools + tools.map_values(|t: McpTool| openai_view(t)),
            },
        ),
    decreases tools.len(),
{
    if tools.len() > 0 {
        let rest = tools.drop_last();
        lemma_register_tools(v, server, rest);
        let prev = ToolRegistryView {
            routes: insert_routes(v.routes, tool_names_of(rest), server),
            connections: v.connections,
            tools: v.tools + rest.map_values(|t: McpTool| openai_view(t)),
        };
        lemma_register_tool(prev, server, openai_view(tools.last()));
        assert(tool_names_of(tools).drop_last() =~= tool_names_of(rest));
        assert(v.tools + tools.map_values(|t: McpTool| openai_view(t)) =~= prev.tools.push(
            openai_view(tools.last()),
        ));
    }
}

/// Adding a server keeps the invariant.
proof fn lemma_add_keeps_wf<C>(v: ToolRegistryView<C>, server: Seq<char>, connection: C, tools: Seq<McpTool>)
    requires
        registry_wf(v),
    ensures
        registry_wf(add_spec(v, server, connection, tools)),
{
    lemma_register_tools(v, server, tools);
    lemma_register_connection(
        ToolRegistryView {
            routes: insert_routes(v.routes, tool_names_of(tools), server),
            connections: v.connections,
            tools: v.tools + tools.map_values(|t: McpTool| openai_view(t)),
        },
        server,
        connection,
    );
}

/// The registry after the servers of `adds` (name, connection, listed
/// tools) are added to `v`, in order.
pub open spec fn added_all<C>(v: ToolRegistryView<C>, adds: Seq<(Seq<char>, C, Seq<McpTool>)>) -> ToolRegistryView<C>
    decreases adds.len(),
{
    if adds.len() == 0 {
        v
    } else {
        add_spec(added_all(v, adds.drop_last()), adds.last().0, adds.last().1, adds.last().2)
    }
}

/// The index of the last server in `adds` that lists tool `t`.
pub open spec fn last_lister<C>(adds: Seq<(Seq<char>, C, Seq<McpTool>)>, t: Seq<char>) -> Option<int>
    decreases adds.len(),
{
    if adds.len() == 0 {
        None
    } else if tool_names_of(adds.last().2).contains(t) {
        Some(adds.len() - 1)
    } else {
        last_lister(adds.drop_last(), t)
    }
}

/// The index of the last server in `adds` called `s`.
pub open spec fn last_named<C>(adds: Seq<(Seq<char>, C, Seq<McpTool>)>, s: Seq<char>) -> Option<int>
    decreases adds.len(),
{
    if adds.len() == 0 {
        None
    } else if adds.last().0 == s {
        Some(adds.len() - 1)
    } else {
        last_named(adds.drop_last(), s)
    }
}

/// A server at index `k` is outlived by the last server of its name.
proof fn lemma_last_named_after<C>(adds: Seq<(Seq<char>, C, Seq<McpTool>)>, k: int)
    requires
        0 <= k < adds.len(),
    ensures
        last_named(adds, adds[k].0) matches Some(j) && k <= j < adds.len() && adds[j].0 == adds[k].0,
    decreases adds.len(),
{
    if k < adds.len() - 1 && adds.last().0 != adds[k].0 {
        assert(adds.drop_last()[k] == adds[k]);
        lemma_last_named_after(adds.drop_last(), k);
        let j = last_named(adds.drop_last(), adds[k].0)->0;
        assert(adds.drop_last()[j] == adds[j]);
    }
}

/// After servers are added in order, each tool is routed to the last of
/// them that lists it (a tool none of them lists keeps its route), each
/// server name holds the connection of the last server of that name, and
/// so a call of a tool goes to the connection of the last server called
/// like the last server that lists it. The invariant holds throughout.
pub proof fn law_routing_after_servers<C>(v: ToolRegistryView<C>, adds: Seq<(Seq<char>, C, Seq<McpTool>)>)
    requires
        registry_wf(v),
    ensures
        registry_wf(added_all(v, adds)),
        forall|t: Seq<char>|
            #[trigger] lookup(added_all(v, adds).routes, t) == match last_lister(adds, t) {
                Some(k) => Some(adds[k].0),
                None => lookup(v.routes, t),
            },
        forall|s: Seq<char>|
            #[trigger] lookup(added_all(v, adds).connections, s) == match last_named(adds, s) {
                Some(j) => Some(adds[j].1),
                None => lookup(v.connections, s),
            },
        forall|t: Seq<char>|
            #![trigger last_lister(adds, t)]
            last_lister(adds, t) matches Some(k) ==> (last_named(adds, adds[k].0) matches Some(j) && k <= j
                && lookup(added_all(v, adds).connections, adds[k].0) == Some(adds[j].1)),
    decreases adds.len(),
{
    if adds.len() > 0 {
        let rest = adds.drop_last();
        let prev = added_all(v, rest);
        let (s, c, tools) = adds.last();
        law_routing_after_servers(v, rest);
        lemma_add_keeps_wf(prev, s, c, tools);
        lemma_insert_routes(prev.routes, tool_names_of(tools), s);
        lemma_assoc_insert(prev.connections, s, c);
        assert forall|t: Seq<char>|
            #[trigger] lookup(added_all(v, adds).routes, t) == match last_lister(adds, t) {
                Some(k) => Some(adds[k].0),
                None => lookup(v.routes, t),
            } by {
            if !tool_names_of(tools).contains(t) {
                assert(lookup(prev.routes, t) == match last_lister(rest, t) {
                    Some(k) => Some(rest[k].0),
                    None => lookup(v.routes, t),
                });
                lemma_last_lister_range(rest, t);
                if let Some(k) = last_lister(rest, t) {
                    assert(rest[k] == adds[k]);
                }
            }
        }
        assert forall|x: Seq<char>|
            #[trigger] lookup(added_all(v, adds).connections, x) == match last_named(adds, x) {
                Some(j) => Some(adds[j].1),
                None => lookup(v.connections, x),
            } by {
            if x != s {
                assert(lookup(prev.connections, x) == match last_named(rest, x) {
                    Some(j) => Some(rest[j].1),
                    None => lookup(v.connections, x),
                });
                lemma_last_named_range(rest, x);
                if let Some(j) = last_named(rest, x) {
                    assert(rest[j] == adds[j]);
                }
            }
        }
    }
    assert forall|t: Seq<char>|
        #![trigger last_lister(adds, t)]
        last_lister(adds, t) is Some implies (last_named(adds, adds[last_lister(adds, t)->0].0) matches Some(j)
            && last_lister(adds, t)->0 <= j && lookup(added_all(v, adds).connections, adds[last_lister(adds, t)->0].0)
            == Some(adds[j].1)) by {
        let k = last_lister(adds, t)->0;
        lemma_last_lister_range(adds, t);
        lemma_last_named_after(adds, k);
        assert(lookup(added_all(v, adds).connections, adds[k].0) == match last_named(adds, adds[k].0) {
            Some(j) => Some(adds[j].1),
            None => lookup(v.connections, adds[k].0),
        });
    }
}

/// The last lister of a tool is an index of `adds`.
proof fn lemma_last_lister_range<C>(adds: Seq<(Seq<char>, C, Seq<McpTool>)>, t: Seq<char>)
    ensures
        last_lister(adds, t) matches Some(k) ==> 0 <= k < adds.len(),
    decreases adds.len(),
{
    if adds.len() > 0 {
        lemma_last_lister_range(adds.drop_last(), t);
    }
}

/// The last server of a name is an index of `adds`.
proof fn lemma_last_named_range<C>(adds: Seq<(Seq<char>, C, Seq<McpTool>)>, s: Seq<char>)
    ensures
        last_named(adds, s) matches Some(j) ==> 0 <= j < adds.len(),
    decreases adds.len(),
{
    if adds.len() > 0 {
        lemma_last_named_range(adds.drop_last(), s);
    }
}

/// The names the registry routes are exactly the names of the offered
/// definitions, none twice, and every offered definition is a
/// `"function"`.
pub proof fn law_offered_names<C>(v: ToolRegistryView<C>)
    requires
        registry_wf(v),
    ensures
        forall|i: int, j: int|
            0 <= i < v.routes.len() && 0 <= j < v.routes.len() && i != j ==> v.routes[i].0 != v.routes[j].0,
        forall|t: Seq<char>| #[trigger] route_names(v.routes).contains(t) <==> offers_tool(v.tools, t),
        forall|i: int| 0 <= i < v.tools.len() ==> (#[trigger] v.tools[i]).kind == "function"@,
{
    let names = route_names(v.routes);
    assert forall|t: Seq<char>| #[trigger] names.contains(t) <==> offers_tool(v.tools, t) by {
        if names.contains(t) {
            let i = choose|i: int| 0 <= i < names.len() && names[i] == t;
            lemma_lookup_found(v.routes, t, i);
            assert(offers_tool(v.tools, t));
        }
        if offers_tool(v.tools, t) {
            assert(lookup(v.routes, t) is Some);
            lemma_lookup_some(v.routes, t);
            let i = choose|i: int| 0 <= i < v.routes.len() && v.routes[i].0 == t && lookup(v.routes, t) == Some(
                v.routes[i].1,
            );
            assert(names[i] == t);
        }
    }
}

impl<C> ToolRegistry<C> {
    /// Tool names and server names are unique.
    pub open spec fn wf(&self) -> bool {
        registry_wf(self@)
    }

    /// An empty registry.
    pub fn new() -> (r: Self)
        ensures
            r.wf(),
            r@.routes.len() == 0,
            r@.connections.len() == 0,
            r@.tools.len() == 0,
    {
        ToolRegistry { tool_to_server: Vec::new(), connections: Vec::new(), openai_tools: Vec::new() }
    }

    /// Records a connected server and the tools it lists: each tool is
    /// routed to the server (a tool of the same name listed earlier is
    /// routed anew) and offered to the model, and the connection is kept
    /// (in place of an earlier one of the same name).
    pub fn add_server(&mut self, server_name: &str, connection: C, tools: &Vec<McpTool>)
        requires
            old(self).wf(),
        ensures
            final(self).wf(),
            final(self)@.routes == insert_routes(old(self)@.routes, tool_names_of(tools@), server_name@),
            final(self)@.tools == old(self)@.tools + tools@.map_values(|t: McpTool| openai_view(t)),
            final(self)@.connections == assoc_insert(old(self)@.connections, server_name@, connection),
            final(self)@ == add_spec(old(self)@, server_name@, connection, tools@),
    {
        let ghost start = self@;
        let n = tools.len();
        for i in 0..n
            invariant
                n == tools@.len(),
                self.wf(),
                self@.connections == start.connections,
                self@.routes == insert_routes(start.routes, tool_names_of(tools@.take(i as int)), server_name@),
                self@.tools == start.tools + tools@.take(i as int).map_values(|t: McpTool| openai_view(t)),
        {
            let tool = &tools[i];
            let ghost routes_before = self@.routes;
            let ghost tools_before = self@.tools;
            proof {
                lemma_assoc_insert(routes_before, tool.name@, server_name@);
                lemma_register_tool(self@, server_name@, openai_view(*tool));
            }
            assoc_set_routes(&mut self.tool_to_server, tool.name.clone(), server_name.to_owned());
            let def = mcp_tool_to_openai(tool);
            self.openai_tools.push(def);
            proof {
                assert(tool_names_of(tools@.take(i + 1)).drop_last() =~= tool_names_of(tools@.take(i as int)));
                assert(tools@.take(i + 1).map_values(|t: McpTool| openai_view(t)) =~= tools@.take(
                    i as int,
                ).map_values(|t: McpTool| openai_view(t)).push(openai_view(tools@[i as int])));
                assert(self@.tools =~= tools_before.push(openai_view(tools@[i as int])));
            }
        }
        assert(tools@.take(n as int) =~= tools@);
        proof {
            lemma_assoc_insert(self@.connections, server_name@, connection);
            lemma_register_connection(self@, server_name@, connection);
        }
        assoc_set(&mut self.connections, server_name.to_owned(), connection);
    }

    /// Takes in what became of a configured server: a server that could
    /// not be connected, initialized or asked for its tools is skipped and
    /// the warning for it returned; a server that listed its tools is added
    /// and the number of its tools returned.
    pub fn record_setup(&mut self, server: &McpServerConfig, setup: ServerSetup<C>) -> (r: Result<usize, String>)
        requires
            old(self).wf(),
        ensures
            final(self).wf(),
            match setup {
                ServerSetup::Listed(c, tools) => {
                    &&& final(self)@ == add_spec(old(self)@, server.name@, c, tools@)
                    &&& r matches Ok(n) && n == tools@.len()
                },
                _ => {
                    &&& final(self)@ == old(self)@
                    &&& r matches Err(t) && Some(t@) == setup_warning(server.name@, server.url@, setup)
                },
            },
    {
        let name = server.name.as_str();
        match setup {
            ServerSetup::ConnectFailed(e) => {
                let mut t = "Could not connect to MCP server '".to_owned();
                t.append(name);
                t.append("' at ");
                t.append(server.url.as_str());
                t.append(": ");
                t.append(e.as_str());
                Err(t)
            },
            ServerSetup::InitializeFailed(e) => {
                let mut t = "Failed to initialize MCP server '".to_owned();
                t.append(name);
                t.append("': ");
                t.append(e.as_str());
                Err(t)
            },
            ServerSetup::ListFailed(e) => {
                let mut t = "Failed to list tools from MCP server '".to_owned();
                t.append(name);
                t.append("': ");
                t.append(e.as_str());
                Err(t)
            },
            ServerSetup::Listed(connection, tools) => {
                let count = tools.len();
                self.add_server(name, connection, &tools);
                Ok(count)
            },
        }
    }

    /// The tool definitions offered to the model.
    pub fn get_openai_tools(&self) -> (r: Vec<ToolDefinition>)
        ensures
            r@.map_values(|t: ToolDefinition| t@) == self@.tools,
    {
        let mut r: Vec<ToolDefinition> = Vec::new();
        for i in 0..self.openai_tools.len()
            invariant
                r@ == self.openai_tools@.take(i as int),
        {
            r.push(self.openai_tools[i].clone());
            assert(self.openai_tools@.take(i + 1) == self.openai_tools@.take(i as int).push(
                self.openai_tools@[i as int],
            ));
        }
        assert(self.openai_tools@.take(self.openai_tools@.len() as int) == self.openai_tools@);
        r
    }

    /// The names of all routed tools, in the order they were first added.
    pub fn tool_names(&self) -> (r: Vec<&str>)
        ensures
            r@.map_values(|s: &str| s@) == route_names(self@.routes),
    {
        let mut r: Vec<&str> = Vec::new();
        let n = self.tool_to_server.len();
        for i in 0..n
            invariant
                n == self.tool_to_server@.len(),
                self@.routes == routes_view(self.tool_to_server@),
                r@.len() == i,
                forall|k: int| 0 <= k < i ==> (#[trigger] r@[k])@ == self@.routes[k].0,
        {
            let name = self.tool_to_server[i].0.as_str();
            r.push(name);
        }
        assert(r@.map_values(|s: &str| s@) =~= route_names(self@.routes));
        r
    }

    /// Decides how to answer a tool call: a tool that no server offers, or
    /// whose server has no connection, is answered with an error text;
    /// otherwise the call goes to the server's connection, with the
    /// model's arguments when they are JSON and an empty object when not.
    pub fn plan_call(&self, tool_call: &ToolCall) -> (r: ToolCallPlan<'_, C>)
        requires
            self.wf(),
        ensures
            match lookup(self@.routes, tool_call.function.name@) {
                None => r matches ToolCallPlan::Reply(t) && t@ == "Error: tool '"@
                    + tool_call.function.name@ + "' not found in any MCP server"@,
                Some(server) => match lookup(self@.connections, server) {
                    None => r matches ToolCallPlan::Reply(t) && t@ == "Error: MCP server '"@ + server
                        + "' not connected"@,
                    Some(c) => r matches ToolCallPlan::Call { connection, name, arguments } && *connection
                        == c && name@ == tool_call.function.name@ && (is_json(
                        tool_call.function.arguments@,
                    ) ==> arguments@ == tool_call.function.arguments@) && (!is_json(
                        tool_call.function.arguments@,
                    ) ==> arguments@ == "{}"@),
                },
            },
    {
        let name = tool_call.function.name.as_str();
        let ghost routes = self@.routes;
        let ghost conns = self@.connections;
        let ri = match find_key(&self.tool_to_server, name) {
            None => {
                proof {
                    assert forall|j: int| 0 <= j < routes.len() implies routes[j].0 != name@ by {
                        assert(routes[j].0 == self.tool_to_server@[j].0@);
                    }
                    lemma_lookup_absent(routes, name@);
                }
                let mut t = "Error: tool '".to_owned();
                t.append(name);
                t.append("' not found in any MCP server");
                return ToolCallPlan::Reply(t);
            },
            Some(i) => i,
        };
        let server = self.tool_to_server[ri].1.as_str();
        proof {
            assert(routes[ri as int] == (name@, server@));
            lemma_lookup_found(routes, name@, ri as int);
        }
        match find_key(&self.connections, server) {
            None => {
                proof {
                    assert forall|j: int| 0 <= j < conns.len() implies conns[j].0 != server@ by {
                        assert(conns[j].0 == self.connections@[j].0@);
                    }
                    lemma_lookup_absent(conns, server@);
                }
                let mut t = "Error: MCP server '".to_owned();
                t.append(server);
                t.append("' not connected");
                ToolCallPlan::Reply(t)
            },
            Some(ci) => {
                let connection = &self.connections[ci].1;
                proof {
                    assert(conns[ci as int] == (server@, *connection));
                    lemma_lookup_found(conns, server@, ci as int);
                }
                let ok = json_is_valid(tool_call.function.arguments.as_str());
                let arguments = arguments_or_empty(tool_call.function.arguments.as_str(), ok);
                ToolCallPlan::Call { connection, name: name.to_owned(), arguments }
            },
        }
    }

    /// The text a tool call is answered with: the texts of the result's
    /// parts, one per line, after `Tool error: ` when the server flags an
    /// error; or, when the call failed, `Error calling tool '<name>': ` and
    /// the error.
    pub fn call_result_text(tool_name: &str, outcome: Result<McpToolResult, String>) -> (r: String)
        ensures
            r@ == call_result_spec(tool_name@, outcome),
    {
        match outcome {
            Ok(result) => {
                let mut text = String::new();
                let mut any = false;
                let n = result.content.len();
                for i in 0..n
                    invariant
                        n == result.content@.len(),
                        any == (content_texts(result.content@.take(i as int)).len() > 0),
                        text@ == join_spec(content_texts(result.content@.take(i as int)), "\n"@),
                {
                    let ghost parts = content_texts(result.content@.take(i as int));
                    assert(result.content@.take(i + 1).drop_last() =~= result.content@.take(i as int));
                    match &result.content[i].text {
                        Some(t) => {
                            if any {
                                text.append("\n");
                            }
                            text.append(t.as_str());
                            any = true;
                            proof {
                                let now = parts.push(t@);
                                assert(now.drop_last() =~= parts);
                                if parts.len() == 0 {
                                    assert(text@ =~= join_spec(now, "\n"@));
                                }
                            }
                        },
                        None => {},
                    }
                }
                assert(result.content@.take(n as int) =~= result.content@);
                if result.is_error {
                    let mut r = "Tool error: ".to_owned();
                    r.append(text.as_str());
                    r
                } else {
                    text
                }
            },
            Err(e) => {
                let mut r = "Error calling tool '".to_owned();
                r.append(tool_name);
                r.append("': ");
                r.append(e.as_str());
                r
            },
        }
    }
}

/// The routes as text pairs.
pub open spec fn routes_view(m: Seq<(String, String)>) -> Seq<(Seq<char>, Seq<char>)> {
    m.map_values(|p: (String, String)| (p.0@, p.1@))
}

/// Routes tool `k` to server `v`.
fn assoc_set_routes(m: &mut Vec<(String, String)>, k: String, v: String)
    requires
        keys_unique(routes_view(old(m)@)),
    ensures
        routes_view(final(m)@) == assoc_insert(routes_view(old(m)@), k@, v@),
{
    let ghost before = routes_view(m@);
    let ghost kv = k@;
    let ghost vv = v@;
    match find_key(m, k.as_str()) {
        Some(i) => {
            proof {
                assert(before[i as int].0 == kv);
                lemma_lookup_found(before, kv, i as int);
            }
            m.set(i, (k, v));
            proof {
                assert forall|j: int| 0 <= j < before.len() && j != i implies before[j].0 != kv by {}
                assert(routes_view(m@) =~= assoc_insert(before, kv, vv));
            }
        },
        None => {
            proof {
                assert forall|j: int| 0 <= j < before.len() implies before[j].0 != kv by {
                    assert(before[j].0 == m@[j].0@);
                }
                lemma_lookup_absent(before, kv);
            }
            m.push((k, v));
            assert(routes_view(m@) =~= assoc_insert(before, kv, vv));
        },
    }
}

/// Routing each of `names` to `server` keeps tool names unique, routes
/// every listed tool to `server`, and leaves every other tool's route.
pub proof fn lemma_insert_routes(m: Seq<(Seq<char>, Seq<char>)>, names: Seq<Seq<char>>, server: Seq<char>)
    requires
        keys_unique(m),
    ensures
        keys_unique(insert_routes(m, names, server)),
        forall|t: Seq<char>| names.contains(t) ==> lookup(insert_routes(m, names, server), t) == Some(server),
        forall|t: Seq<char>|
            !names.contains(t) ==> lookup(insert_routes(m, names, server), t) == lookup(m, t),
    decreases names.len(),
{
    if names.len() > 0 {
        let prev = insert_routes(m, names.drop_last(), server);
        lemma_insert_routes(m, names.drop_last(), server);
        lemma_assoc_insert(prev, names.last(), server);
        assert forall|t: Seq<char>| names.contains(t) implies lookup(
            insert_routes(m, names, server),
            t,
        ) == Some(server) by {
            if t != names.last() {
                let i = choose|i: int| 0 <= i < names.len() && names[i] == t;
                assert(names.drop_last()[i] == t);
                assert(names.drop_last().contains(t));
                assert(lookup(prev, t) == Some(server));
            }
        }
        assert forall|t: Seq<char>| !names.contains(t) implies lookup(
            insert_routes(m, names, server),
            t,
        ) == lookup(m, t) by {
            assert(t != names[names.len() - 1]);
            if names.drop_last().contains(t) {
                let i = choose|i: int| 0 <= i < names.drop_last().len() && names.drop_last()[i] == t;
                assert(names[i] == t);
            }
        }
    }
}

/// After a server is added with the tools it lists, every one of those
/// tools is routed to that server, the server's connection is the new one,
/// and so a call of such a tool goes to the new connection; tools the
/// server does not list keep their routes.
pub proof fn law_added_tools_route_to_server<C>(
    routes: Seq<(Seq<char>, Seq<char>)>,
    connections: Seq<(Seq<char>, C)>,
    tools: Seq<McpTool>,
    server: Seq<char>,
    connection: C,
)
    requires
        keys_unique(routes),
        keys_unique(connections),
    ensures
        forall|t: Seq<char>|
            tool_names_of(tools).contains(t) ==> lookup(insert_routes(routes, tool_names_of(tools), server), t)
                == Some(server),
        forall|t: Seq<char>|
            !tool_names_of(tools).contains(t) ==> lookup(
                insert_routes(routes, tool_names_of(tools), server),
                t,
            ) == lookup(routes, t),
        lookup(assoc_insert(connections, server, connection), server) == Some(connection),
{
    lemma_insert_routes(routes, tool_names_of(tools), server);
    lemma_assoc_insert(connections, server, connection);
}

} // verus!
