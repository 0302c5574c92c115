//! Routing for the Model Context Protocol server that offers the tool
//! registry to the player's own assistants: which answer a JSON-RPC request
//! gets. Building the JSON replies is the transport's part.

use vstd::prelude::*;
use crate::ai_tools::ToolSpec;
use crate::text::{chars_of, range_eq, str_eq, starts_with, string_from_chars};

verus! {

/// The protocol revision this server speaks.
pub const PROTOCOL_VERSION: &'static str = "2024-11-05";

/// What a request asks the server to do.
#[derive(Debug, Clone, PartialEq)]
pub enum McpRoute {
    /// Report the server and its capabilities.
    Initialize,
    /// A notification: no reply.
    Notification,
    /// Answer a ping.
    Ping,
    /// List the tools.
    ToolsList,
    /// Run the named tool.
    CallTool(String),
    /// A tool call naming no tool, or one not offered.
    UnknownTool,
    /// A request without a method.
    NoMethod,
    /// A method this server does not know.
    MethodNotFound(String),
}

/// The route for `method` (and, for a tool call, the tool named `tool`)
/// when the server offers tools named `names`.
pub open spec fn route_is(r: McpRoute, method: Seq<char>, tool: Seq<char>, names: Seq<Seq<char>>) -> bool {
    if method == "initialize"@ {
        r == McpRoute::Initialize
    } else if starts_with(method, "notifications/"@) {
        r == McpRoute::Notification
    } else if method == "ping"@ {
        r == McpRoute::Ping
    } else if method == "tools/list"@ {
        r == McpRoute::ToolsList
    } else if method == "tools/call"@ {
        if tool.len() == 0 || !names.contains(tool) {
            r == McpRoute::UnknownTool
        } else {
            r matches McpRoute::CallTool(n) && n@ == tool
        }
    } else if method.len() == 0 {
        r == McpRoute::NoMethod
    } else {
        r matches McpRoute::MethodNotFound(m) && m@ == method
    }
}

/// The names of the tools offered.
pub open spec fn tool_names(tools: Seq<ToolSpec>) -> Seq<Seq<char>> {
    tools.map_values(|t: ToolSpec| t.name@)
}

/// Whether some offered tool is named `name`.
fn offers(tools: &[ToolSpec], name: &str) -> (r: bool)
    ensures
        r == tool_names(tools@).contains(name@),
{
    let ghost names = tool_names(tools@);
    let mut i: usize = 0;
    while i < tools.len()
        invariant
            names == tool_names(tools@),
            i <= tools@.len(),
            forall|j: int| 0 <= j < i ==> names[j] != name@,
        decreases tools@.len() - i,
    {
        if str_eq(tools[i].name.as_str(), name) {
            assert(names[i as int] == name@);
            return true;
        }
        i += 1;
    }
    false
}

/// Routes a request by its `method`; for `tools/call`, `tool` is the tool
/// the request names (empty when it names none), which must be offered.
pub fn route(method: &str, tool: &str, tools: &[ToolSpec]) -> (r: McpRoute)
    ensures
        route_is(r, method@, tool@, tool_names(tools@)),
{
    if str_eq(method, "initialize") {
        return McpRoute::Initialize;
    }
    let m = chars_of(method);
    let p = chars_of("notifications/");
    if p.len() <= m.len() && range_eq(&m, 0, p.len(), &p, 0, p.len()) {
        assert(m@.take(p@.len() as int) =~= m@.subrange(0, p@.len() as int));
        assert(p@.subrange(0, p@.len() as int) =~= p@);
        return McpRoute::Notification;
    }
    proof {
        if p@.len() <= m@.len() {
            assert(m@.take(p@.len() as int) =~= m@.subrange(0, p@.len() as int));
            assert(p@.subrange(0, p@.len() as int) =~= p@);
        }
    }
    if str_eq(method, "ping") {
        McpRoute::Ping
    } else if str_eq(method, "tools/list") {
        McpRoute::ToolsList
    } else if str_eq(method, "tools/call") {
        if chars_of(tool).len() == 0 || !offers(tools, tool) {
            McpRoute::UnknownTool
        } else {
            McpRoute::CallTool(tool.to_owned())
        }
    } else if m.len() == 0 {
        McpRoute::NoMethod
    } else {
        McpRoute::MethodNotFound(string_from_chars(m.as_slice()))
    }
}

} // verus!
