pub mod protocol;
pub mod tools;

use vstd::prelude::*;

verus! {

/// One input parameter of an MCP tool.
#[derive(Debug, Clone)]
pub struct ToolParam {
    pub name: String,
    pub param_type: String,
    pub description: String,
    pub required: bool,
}

impl ToolParam {
    pub fn required(name: &str, param_type: &str, description: &str) -> (p: ToolParam)
        ensures
            p.name@ == name@,
            p.param_type@ == param_type@,
            p.description@ == description@,
            p.required,
    {
        ToolParam {
            name: name.to_owned(),
            param_type: param_type.to_owned(),
            description: description.to_owned(),
            required: true,
        }
    }

    pub fn optional(name: &str, param_type: &str, description: &str) -> (p: ToolParam)
        ensures
            p.name@ == name@,
            p.param_type@ == param_type@,
            p.description@ == description@,
            !p.required,
    {
        ToolParam {
            name: name.to_owned(),
            param_type: param_type.to_owned(),
            description: description.to_owned(),
            required: false,
        }
    }
}

/// An MCP tool definition.
#[derive(Debug, Clone)]
pub struct McpTool {
    pub name: String,
    pub description: String,
    pub params: Vec<ToolParam>,
}

impl McpTool {
    pub fn new(name: &str, description: &str, params: Vec<ToolParam>) -> (t: McpTool)
        ensures
            t.name@ == name@,
            t.description@ == description@,
            t.params@ == params@,
    {
        McpTool { name: name.to_owned(), description: description.to_owned(), params }
    }
}

/// An MCP resource definition.
#[derive(Debug, Clone)]
pub struct McpResource {
    pub uri: String,
    pub name: String,
    pub description: String,
    pub mime_type: String,
}

impl McpResource {
    pub fn new(uri: &str, name: &str, description: &str, mime_type: &str) -> (r: McpResource)
        ensures
            r.uri@ == uri@,
            r.name@ == name@,
            r.description@ == description@,
            r.mime_type@ == mime_type@,
    {
        McpResource {
            uri: uri.to_owned(),
            name: name.to_owned(),
            description: description.to_owned(),
            mime_type: mime_type.to_owned(),
        }
    }
}

/// Index of the first tool named `name`, if any.
pub open spec fn first_tool_named(tools: Seq<McpTool>, name: Seq<char>) -> Option<int> {
    if exists|i: int| 0 <= i < tools.len() && tools[i].name@ == name {
        let i = choose|i: int|
            0 <= i < tools.len() && tools[i].name@ == name && forall|j: int|
                0 <= j < i ==> tools[j].name@ != name;
        Some(i)
    } else {
        None
    }
}

/// Index of the first resource with URI `uri`, if any.
pub open spec fn first_resource_with_uri(res: Seq<McpResource>, uri: Seq<char>) -> Option<int> {
    if exists|i: int| 0 <= i < res.len() && res[i].uri@ == uri {
        let i = choose|i: int|
            0 <= i < res.len() && res[i].uri@ == uri && forall|j: int|
                0 <= j < i ==> res[j].uri@ != uri;
        Some(i)
    } else {
        None
    }
}

/// An MCP server: a name, a version, and the tools and resources registered
/// in order.
pub struct McpServer {
    name: String,
    version: String,
    tools: Vec<McpTool>,
    resources: Vec<McpResource>,
}

impl McpServer {
    pub closed spec fn server_name(&self) -> Seq<char> {
        self.name@
    }

    pub closed spec fn server_version(&self) -> Seq<char> {
        self.version@
    }

    pub closed spec fn tool_list(&self) -> Seq<McpTool> {
        self.tools@
    }

    pub closed spec fn resource_list(&self) -> Seq<McpResource> {
        self.resources@
    }

    pub fn new(name: &str, version: &str) -> (s: McpServer)
        ensures
            s.server_name() == name@,
            s.server_version() == version@,
            s.tool_list() == Seq::<McpTool>::empty(),
            s.resource_list() == Seq::<McpResource>::empty(),
    {
        McpServer {
            name: name.to_owned(),
            version: version.to_owned(),
            tools: Vec::new(),
            resources: Vec::new(),
        }
    }

    pub fn name(&self) -> (n: &str)
        ensures
            n@ == self.server_name(),
    {
        self.name.as_str()
    }

    pub fn version(&self) -> (v: &str)
        ensures
            v@ == self.server_version(),
    {
        self.version.as_str()
    }

    pub fn register_tool(&mut self, tool: McpTool)
        ensures
            final(self).tool_list() == old(self).tool_list().push(tool),
            final(self).resource_list() == old(self).resource_list(),
            final(self).server_name() == old(self).server_name(),
            final(self).server_version() == old(self).server_version(),
    {
        self.tools.push(tool);
    }

    pub fn register_resource(&mut self, resource: McpResource)
        ensures
            final(self).resource_list() == old(self).resource_list().push(resource),
            final(self).tool_list() == old(self).tool_list(),
            final(self).server_name() == old(self).server_name(),
            final(self).server_version() == old(self).server_version(),
    {
        self.resources.push(resource);
    }

    pub fn tools(&self) -> (t: &[McpTool])
        ensures
            t@ == self.tool_list(),
    {
        self.tools.as_slice()
    }

    pub fn resources(&self) -> (r: &[McpResource])
        ensures
            r@ == self.resource_list(),
    {
        self.resources.as_slice()
    }

    /// The first registered tool with this name.
    pub fn find_tool(&self, name: &str) -> (t: Option<&McpTool>)
        ensures
            match first_tool_named(self.tool_list(), name@) {
                Some(i) => t == Some(&self.tool_list()[i]),
                None => t is None,
            },
    {
        let key = name.to_owned();
        let mut i: usize = 0;
        while i < self.tools.len()
            invariant
                i <= self.tools.len(),
                key@ == name@,
                forall|j: int| 0 <= j < i ==> self.tools@[j].name@ != name@,
            decreases self.tools.len() - i,
        {
            if self.tools[i].name == key {
                proof {
                    let k = i as int;
                    assert(0 <= k < self.tool_list().len() && self.tool_list()[k].name@ == name@);
                    let c = first_tool_named(self.tool_list(), name@).unwrap();
                    if c < k {
                        assert(self.tools@[c].name@ != name@);
                    } else if c > k {
                    }
                }
                return Some(&self.tools[i]);
            }
            i = i + 1;
        }
        None
    }

    /// The first registered resource with this URI.
    pub fn find_resource(&self, uri: &str) -> (r: Option<&McpResource>)
        ensures
            match first_resource_with_uri(self.resource_list(), uri@) {
                Some(i) => r == Some(&self.resource_list()[i]),
                None => r is None,
            },
    {
        let key = uri.to_owned();
        let mut i: usize = 0;
        while i < self.resources.len()
            invariant
                i <= self.resources.len(),
                key@ == uri@,
                forall|j: int| 0 <= j < i ==> self.resources@[j].uri@ != uri@,
            decreases self.resources.len() - i,
        {
            if self.resources[i].uri == key {
                proof {
                    let k = i as int;
                    assert(0 <= k < self.resource_list().len() && self.resource_list()[k].uri@
                        == uri@);
                    let c = first_resource_with_uri(self.resource_list(), uri@).unwrap();
                    if c < k {
                        assert(self.resources@[c].uri@ != uri@);
                    }
                }
                return Some(&self.resources[i]);
            }
            i = i + 1;
        }
        None
    }
}

} // verus!
