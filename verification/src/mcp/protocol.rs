use vstd::prelude::*;

use super::McpServer;

verus! {

/// Which handler a JSON-RPC method is routed to.
#[derive(Debug, Clone, Copy, PartialEq, Eq, Structural)]
pub enum McpRoute {
    Initialize,
    ToolsList,
    ResourcesList,
    MethodNotFound,
}

/// JSON-RPC error code for an unknown method.
pub const METHOD_NOT_FOUND: i32 = -32601;

/// The route of a method name.
pub open spec fn route_of(method: Seq<char>) -> McpRoute {
    if method == "initialize"@ {
        McpRoute::Initialize
    } else if method == "tools/list"@ {
        McpRoute::ToolsList
    } else if method == "resources/list"@ {
        McpRoute::ResourcesList
    } else {
        McpRoute::MethodNotFound
    }
}

/// Routes MCP requests to the handler for their method.
pub struct McpRouter {
    server: McpServer,
}

impl McpRouter {
    pub closed spec fn served(&self) -> McpServer {
        self.server
    }

    pub fn new(server: McpServer) -> (r: McpRouter)
        ensures
            r.served() == server,
    {
        McpRouter { server }
    }

    /// The server whose tools and resources are listed.
    pub fn server(&self) -> (s: &McpServer)
        ensures
            *s == self.served(),
    {
        &self.server
    }

    /// Decides how a request with this method is answered.
    pub fn route(&self, method: &str) -> (r: McpRoute)
        ensures
            r == route_of(method@),
    {
        let m = method.to_owned();
        if m == "initialize".to_owned() {
            McpRoute::Initialize
        } else if m == "tools/list".to_owned() {
            McpRoute::ToolsList
        } else if m == "resources/list".to_owned() {
            McpRoute::ResourcesList
        } else {
            McpRoute::MethodNotFound
        }
    }
}

} // verus!
