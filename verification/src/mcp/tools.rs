use vstd::prelude::*;

use super::{McpResource, McpServer, McpTool, ToolParam};

verus! {

/// A parameter is described by its name, JSON type, description and whether
/// it is required.
pub open spec fn param_is(
    p: ToolParam,
    name: Seq<char>,
    ty: Seq<char>,
    desc: Seq<char>,
    required: bool,
) -> bool {
    p.name@ == name && p.param_type@ == ty && p.description@ == desc && p.required == required
}

/// The tools of the shabti server: memory_store, memory_search and
/// memory_status, with their parameters.
pub open spec fn shabti_tools(tools: Seq<McpTool>) -> bool {
    &&& tools.len() == 3
    &&& tools[0].name@ == "memory_store"@
    &&& tools[0].description@ == "Store a memory entry in shabti"@
    &&& tools[0].params@.len() == 3
    &&& param_is(tools[0].params@[0], "content"@, "string"@, "The text content to store"@, true)
    &&& param_is(
        tools[0].params@[1],
        "namespace"@,
        "string"@,
        "Target namespace (default: 'default')"@,
        false,
    )
    &&& param_is(tools[0].params@[2], "tags"@, "array"@, "Tags to associate with the memory"@, false)
    &&& tools[1].name@ == "memory_search"@
    &&& tools[1].description@ == "Search stored memories by semantic similarity"@
    &&& tools[1].params@.len() == 3
    &&& param_is(tools[1].params@[0], "query"@, "string"@, "Search query text"@, true)
    &&& param_is(
        tools[1].params@[1],
        "limit"@,
        "integer"@,
        "Maximum number of results (default: 10)"@,
        false,
    )
    &&& param_is(tools[1].params@[2], "namespace"@, "string"@, "Namespace to search within"@, false)
    &&& tools[2].name@ == "memory_status"@
    &&& tools[2].description@ == "Get the current status of the memory engine"@
    &&& tools[2].params@.len() == 0
}

/// A resource is described by its URI, name, description and MIME type.
pub open spec fn resource_is(
    r: McpResource,
    uri: Seq<char>,
    name: Seq<char>,
    desc: Seq<char>,
    mime: Seq<char>,
) -> bool {
    r.uri@ == uri && r.name@ == name && r.description@ == desc && r.mime_type@ == mime
}

/// The resources of the shabti server: its status and its configuration.
pub open spec fn shabti_resources(res: Seq<McpResource>) -> bool {
    &&& res.len() == 2
    &&& resource_is(
        res[0],
        "shabti://status"@,
        "Engine status"@,
        "Current shabti engine status and statistics"@,
        "application/json"@,
    )
    &&& resource_is(
        res[1],
        "shabti://config"@,
        "Engine configuration"@,
        "Current engine configuration"@,
        "application/json"@,
    )
}

/// The shabti MCP server with all its tools and resources registered.
pub fn build_shabti_server() -> (server: McpServer)
    ensures
        server.server_name() == "shabti-memory"@,
        server.server_version() == "0.1.0"@,
        shabti_tools(server.tool_list()),
        shabti_resources(server.resource_list()),
{
    let mut server = McpServer::new("shabti-memory", "0.1.0");

    server.register_tool(
        McpTool::new(
            "memory_store",
            "Store a memory entry in shabti",
            vec![
                ToolParam::required("content", "string", "The text content to store"),
                ToolParam::optional("namespace", "string", "Target namespace (default: 'default')"),
                ToolParam::optional("tags", "array", "Tags to associate with the memory"),
            ],
        ),
    );

    server.register_tool(
        McpTool::new(
            "memory_search",
            "Search stored memories by semantic similarity",
            vec![
                ToolParam::required("query", "string", "Search query text"),
                ToolParam::optional("limit", "integer", "Maximum number of results (default: 10)"),
                ToolParam::optional("namespace", "string", "Namespace to search within"),
            ],
        ),
    );

    server.register_tool(
        McpTool::new("memory_status", "Get the current status of the memory engine", vec![]),
    );

    server.register_resource(
        McpResource::new(
            "shabti://status",
            "Engine status",
            "Current shabti engine status and statistics",
            "application/json",
        ),
    );

    server.register_resource(
        McpResource::new(
            "shabti://config",
            "Engine configuration",
            "Current engine configuration",
            "application/json",
        ),
    );

    server
}

/// The arguments of a tool call that the tools read, taken out of the
/// call's JSON object (absent when missing or not of the expected type).
#[derive(Debug, Clone)]
pub struct ToolArgs {
    pub content: Option<String>,
    pub namespace: Option<String>,
    pub query: Option<String>,
    pub limit: Option<u64>,
}

/// What a tool call does once its arguments are checked.
#[derive(Debug, Clone)]
pub enum ToolAction {
    /// Store `content` in `namespace`.
    Store { content: String, namespace: String },
    /// Search for `query`, at most `limit` results, optionally in a namespace.
    Search { query: String, limit: u64, namespace: Option<String> },
    /// Report the engine status.
    Status,
}

pub open spec fn opt_view(o: Option<String>) -> Option<Seq<char>> {
    match o {
        Some(s) => Some(s@),
        None => None,
    }
}

/// The outcome of a tool call: the action, or the error message.
pub open spec fn tool_call_spec(name: Seq<char>, args: ToolArgs, r: Result<ToolAction, String>) -> bool {
    if name == "memory_store"@ {
        match args.content {
            None => r matches Err(e) && e@ == "missing required parameter: content"@,
            Some(c) => r matches Ok(ToolAction::Store { content, namespace }) && content@ == c@
                && namespace@ == (match args.namespace {
                Some(ns) => ns@,
                None => "default"@,
            }),
        }
    } else if name == "memory_search"@ {
        match args.query {
            None => r matches Err(e) && e@ == "missing required parameter: query"@,
            Some(q) => r matches Ok(ToolAction::Search { query, limit, namespace }) && query@ == q@
                && limit == (match args.limit {
                Some(l) => l,
                None => 10u64,
            }) && opt_view(namespace) == opt_view(args.namespace),
        }
    } else if name == "memory_status"@ {
        r matches Ok(ToolAction::Status)
    } else {
        r matches Err(e) && e@ == "unknown tool: "@ + name
    }
}

/// A search call carries its arguments through: a `memory_search` call with a
/// query searches for exactly that query, within exactly the namespace the
/// caller gave (and in no namespace when none was given), with the caller's
/// limit or 10 by default. A store call stores exactly the content, in the
/// caller's namespace or in "default".
pub proof fn lemma_tool_call_keeps_arguments(name: Seq<char>, args: ToolArgs, r: Result<ToolAction, String>)
    requires
        tool_call_spec(name, args, r),
    ensures
        name == "memory_search"@ && args.query is Some ==> match r {
            Ok(ToolAction::Search { query, limit, namespace }) => {
                &&& query@ == args.query.unwrap()@
                &&& (args.namespace is None <==> namespace is None)
                &&& (args.namespace is Some ==> namespace.unwrap()@ == args.namespace.unwrap()@)
                &&& limit == if args.limit is Some {
                    args.limit.unwrap()
                } else {
                    10u64
                }
            },
            _ => false,
        },
        name == "memory_store"@ && args.content is Some ==> match r {
            Ok(ToolAction::Store { content, namespace }) => {
                &&& content@ == args.content.unwrap()@
                &&& (args.namespace is Some ==> namespace@ == args.namespace.unwrap()@)
                &&& (args.namespace is None ==> namespace@ == "default"@)
            },
            _ => false,
        },
{
    reveal_strlit("memory_search");
    reveal_strlit("memory_store");
    assert("memory_search"@ != "memory_store"@) by {
        assert("memory_search"@.len() != "memory_store"@.len());
    }
}

/// Checks a tool call by name against its arguments and decides what it does.
pub fn resolve_tool_call(tool_name: &str, args: &ToolArgs) -> (r: Result<ToolAction, String>)
    ensures
        tool_call_spec(tool_name@, *args, r),
{
    let name = tool_name.to_owned();
    if name == "memory_store".to_owned() {
        match &args.content {
            None => Err("missing required parameter: content".to_owned()),
            Some(c) => {
                let namespace = match &args.namespace {
                    Some(ns) => ns.clone(),
                    None => "default".to_owned(),
                };
                Ok(ToolAction::Store { content: c.clone(), namespace })
            },
        }
    } else if name == "memory_search".to_owned() {
        match &args.query {
            None => Err("missing required parameter: query".to_owned()),
            Some(q) => {
                let limit = match args.limit {
                    Some(l) => l,
                    None => 10,
                };
                let namespace = match &args.namespace {
                    Some(ns) => Some(ns.clone()),
                    None => None,
                };
                Ok(ToolAction::Search { query: q.clone(), limit, namespace })
            },
        }
    } else if name == "memory_status".to_owned() {
        Ok(ToolAction::Status)
    } else {
        let mut msg = "unknown tool: ".to_owned();
        msg.append(tool_name);
        Err(msg)
    }
}

} // verus!
