use shabti::mcp::{McpResource, McpServer, McpTool, ToolParam};

#[test]
fn create_mcp_tool() {
    let tool = McpTool::new(
        "memory_store",
        "Store a memory entry",
        vec![
            ToolParam::required("content", "string", "The text content to store"),
            ToolParam::optional("namespace", "string", "Target namespace"),
        ],
    );

    assert_eq!(tool.name, "memory_store");
    assert_eq!(tool.description, "Store a memory entry");
    assert_eq!(tool.params.len(), 2);
    assert!(tool.params[0].required);
    assert!(!tool.params[1].required);
}

#[test]
fn create_mcp_resource() {
    let resource = McpResource::new(
        "shabti://memories",
        "Memory entries",
        "Access stored memory entries",
        "application/json",
    );

    assert_eq!(resource.uri, "shabti://memories");
    assert_eq!(resource.name, "Memory entries");
    assert_eq!(resource.mime_type, "application/json");
}

#[test]
fn mcp_server_register_tools_and_resources() {
    let mut server = McpServer::new("shabti-memory", "0.1.0");

    server.register_tool(McpTool::new(
        "memory_store",
        "Store a memory",
        vec![ToolParam::required("content", "string", "Content")],
    ));
    server.register_tool(McpTool::new(
        "memory_search",
        "Search memories",
        vec![ToolParam::required("query", "string", "Query")],
    ));
    server.register_resource(McpResource::new(
        "shabti://status",
        "Engine status",
        "Current engine status",
        "application/json",
    ));

    assert_eq!(server.tools().len(), 2);
    assert_eq!(server.resources().len(), 1);
    assert_eq!(server.name(), "shabti-memory");
    assert_eq!(server.version(), "0.1.0");
}

#[test]
fn mcp_server_find_tool_by_name() {
    let mut server = McpServer::new("shabti-memory", "0.1.0");

    server.register_tool(McpTool::new("memory_store", "Store", vec![]));
    server.register_tool(McpTool::new("memory_search", "Search", vec![]));

    assert!(server.find_tool("memory_store").is_some());
    assert!(server.find_tool("memory_search").is_some());
    assert!(server.find_tool("nonexistent").is_none());
}

#[test]
fn mcp_server_find_resource_by_uri() {
    let mut server = McpServer::new("shabti-memory", "0.1.0");

    server.register_resource(McpResource::new(
        "shabti://memories",
        "Memories",
        "All memories",
        "application/json",
    ));
    server.register_resource(McpResource::new(
        "shabti://status",
        "Status",
        "Engine status",
        "application/json",
    ));

    assert!(server.find_resource("shabti://memories").is_some());
    assert!(server.find_resource("shabti://status").is_some());
    assert!(server.find_resource("shabti://unknown").is_none());
}


#[test]
fn mcp_server_find_tool_returns_first_registered() {
    let mut server = McpServer::new("s", "1");
    server.register_tool(McpTool::new("dup", "first", vec![]));
    server.register_tool(McpTool::new("dup", "second", vec![]));
    assert_eq!(server.find_tool("dup").unwrap().description, "first");
}

#[test]
fn tool_params_keep_their_fields() {
    let p = ToolParam::optional("limit", "integer", "Max results");
    assert_eq!(p.name, "limit");
    assert_eq!(p.param_type, "integer");
    assert_eq!(p.description, "Max results");
    assert!(!p.required);
}
