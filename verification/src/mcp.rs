//! Model Context Protocol bookkeeping: the tools and resources this agent
//! exposes, and its connections to outside MCP servers.
//!
//! A tool's input schema is held as JSON text.

use vstd::prelude::*;

use crate::policy::RiskLevel;
use crate::text::str_eq;

verus! {

broadcast use vstd::string::group_string_axioms;

/// A tool as exposed to MCP clients.
#[derive(Debug)]
pub struct McpToolDescriptor {
    pub name: String,
    pub description: String,
    pub input_schema: String,
}

pub struct ToolView {
    pub name: Seq<char>,
    pub description: Seq<char>,
    pub input_schema: Seq<char>,
}

impl View for McpToolDescriptor {
    type V = ToolView;

    open spec fn view(&self) -> ToolView {
        ToolView {
            name: self.name@,
            description: self.description@,
            input_schema: self.input_schema@,
        }
    }
}

impl Clone for McpToolDescriptor {
    fn clone(&self) -> (r: Self)
        ensures
            r@ == self@,
    {
        McpToolDescriptor {
            name: self.name.clone(),
            description: self.description.clone(),
            input_schema: self.input_schema.clone(),
        }
    }
}

/// A resource as exposed to MCP clients.
#[derive(Debug)]
pub struct McpResource {
    pub uri: String,
    pub name: String,
    pub description: String,
    pub mime_type: String,
}

pub struct ResourceView {
    pub uri: Seq<char>,
    pub name: Seq<char>,
    pub description: Seq<char>,
    pub mime_type: Seq<char>,
}

impl View for McpResource {
    type V = ResourceView;

    open spec fn view(&self) -> ResourceView {
        ResourceView {
            uri: self.uri@,
            name: self.name@,
            description: self.description@,
            mime_type: self.mime_type@,
        }
    }
}

impl Clone for McpResource {
    fn clone(&self) -> (r: Self)
        ensures
            r@ == self@,
    {
        McpResource {
            uri: self.uri.clone(),
            name: self.name.clone(),
            description: self.description.clone(),
            mime_type: self.mime_type.clone(),
        }
    }
}

pub open spec fn tool_views(ts: Seq<McpToolDescriptor>) -> Seq<ToolView> {
    ts.map_values(|t: McpToolDescriptor| t@)
}

pub open spec fn resource_views(rs: Seq<McpResource>) -> Seq<ResourceView> {
    rs.map_values(|r: McpResource| r@)
}

/// No two tools share a name.
pub open spec fn tool_names_distinct(ts: Seq<ToolView>) -> bool {
    forall|i: int, j: int| 0 <= i < j < ts.len() ==> (#[trigger] ts[i]).name != (#[trigger] ts[j]).name
}

/// No two resources share a uri.
pub open spec fn resource_uris_distinct(rs: Seq<ResourceView>) -> bool {
    forall|i: int, j: int| 0 <= i < j < rs.len() ==> (#[trigger] rs[i]).uri != (#[trigger] rs[j]).uri
}

/// No two connections share a name.
pub open spec fn connection_names_distinct(cs: Seq<ConnectionView>) -> bool {
    forall|i: int, j: int| 0 <= i < j < cs.len() ==> (#[trigger] cs[i]).name != (#[trigger] cs[j]).name
}

/// The index of the first tool with the given name, or -1.
pub open spec fn tool_index(ts: Seq<ToolView>, name: Seq<char>) -> int
    decreases ts.len(),
{
    if ts.len() == 0 {
        -1
    } else if ts[0].name == name {
        0
    } else if tool_index(ts.drop_first(), name) < 0 {
        -1
    } else {
        1 + tool_index(ts.drop_first(), name)
    }
}

proof fn lemma_tool_index(ts: Seq<ToolView>, name: Seq<char>, i: int)
    requires
        0 <= i <= ts.len(),
        forall|j: int| 0 <= j < i ==> (#[trigger] ts[j]).name != name,
        i == ts.len() || ts[i].name == name,
    ensures
        tool_index(ts, name) == if i == ts.len() {
            -1
        } else {
            i
        },
    decreases i,
{
    if i > 0 {
        assert forall|j: int| 0 <= j < i - 1 implies (#[trigger] ts.drop_first()[j]).name
            != name by {
            assert(ts.drop_first()[j] == ts[j + 1]);
        }
        if i < ts.len() {
            assert(ts.drop_first()[i - 1] == ts[i]);
        }
        lemma_tool_index(ts.drop_first(), name, i - 1);
    }
}

/// The index of the first resource with the given uri, or -1.
pub open spec fn resource_index(rs: Seq<ResourceView>, uri: Seq<char>) -> int
    decreases rs.len(),
{
    if rs.len() == 0 {
        -1
    } else if rs[0].uri == uri {
        0
    } else if resource_index(rs.drop_first(), uri) < 0 {
        -1
    } else {
        1 + resource_index(rs.drop_first(), uri)
    }
}

proof fn lemma_resource_index(rs: Seq<ResourceView>, uri: Seq<char>, i: int)
    requires
        0 <= i <= rs.len(),
        forall|j: int| 0 <= j < i ==> (#[trigger] rs[j]).uri != uri,
        i == rs.len() || rs[i].uri == uri,
    ensures
        resource_index(rs, uri) == if i == rs.len() {
            -1
        } else {
            i
        },
    decreases i,
{
    if i > 0 {
        assert forall|j: int| 0 <= j < i - 1 implies (#[trigger] rs.drop_first()[j]).uri != uri by {
            assert(rs.drop_first()[j] == rs[j + 1]);
        }
        if i < rs.len() {
            assert(rs.drop_first()[i - 1] == rs[i]);
        }
        lemma_resource_index(rs.drop_first(), uri, i - 1);
    }
}

fn find_tool(ts: &Vec<McpToolDescriptor>, name: &str) -> (r: Option<usize>)
    ensures
        match r {
            Some(i) => i == tool_index(tool_views(ts@), name@) && i < ts@.len() && ts@[i as int]@.name
                == name@,
            None => tool_index(tool_views(ts@), name@) == -1 && forall|j: int|
                0 <= j < ts@.len() ==> (#[trigger] ts@[j])@.name != name@,
        },
{
    let ghost tv = tool_views(ts@);
    let mut i: usize = 0;
    while i < ts.len()
        invariant
            0 <= i <= ts@.len(),
            tv == tool_views(ts@),
            forall|j: int| 0 <= j < i ==> (#[trigger] tv[j]).name != name@,
        decreases ts@.len() - i,
    {
        assert(tv[i as int] == ts@[i as int]@);
        if str_eq(ts[i].name.as_str(), name) {
            proof {
                lemma_tool_index(tv, name@, i as int);
            }
            return Some(i);
        }
        i = i + 1;
    }
    proof {
        lemma_tool_index(tv, name@, i as int);
        assert forall|j: int| 0 <= j < ts@.len() implies (#[trigger] ts@[j])@.name != name@ by {
            assert(tv[j] == ts@[j]@);
        }
    }
    None
}

fn clone_tools(ts: &Vec<McpToolDescriptor>) -> (r: Vec<McpToolDescriptor>)
    ensures
        tool_views(r@) == tool_views(ts@),
{
    let ghost tv = tool_views(ts@);
    let mut out: Vec<McpToolDescriptor> = Vec::new();
    let mut i: usize = 0;
    while i < ts.len()
        invariant
            0 <= i <= ts@.len(),
            tv == tool_views(ts@),
            tool_views(out@) == tv.take(i as int),
        decreases ts@.len() - i,
    {
        let ghost o0 = tool_views(out@);
        out.push(ts[i].clone());
        assert(tool_views(out@) =~= o0.push(tv[i as int]));
        assert(tv.take(i + 1) =~= tv.take(i as int).push(tv[i as int]));
        i = i + 1;
    }
    assert(tv.take(ts@.len() as int) =~= tv);
    out
}

fn clone_resources(rs: &Vec<McpResource>) -> (r: Vec<McpResource>)
    ensures
        resource_views(r@) == resource_views(rs@),
{
    let ghost rv = resource_views(rs@);
    let mut out: Vec<McpResource> = Vec::new();
    let mut i: usize = 0;
    while i < rs.len()
        invariant
            0 <= i <= rs@.len(),
            rv == resource_views(rs@),
            resource_views(out@) == rv.take(i as int),
        decreases rs@.len() - i,
    {
        let ghost o0 = resource_views(out@);
        out.push(rs[i].clone());
        assert(resource_views(out@) =~= o0.push(rv[i as int]));
        assert(rv.take(i + 1) =~= rv.take(i as int).push(rv[i as int]));
        i = i + 1;
    }
    assert(rv.take(rs@.len() as int) =~= rv);
    out
}

/// The tools and resources this agent exposes over MCP, each name and each
/// uri at most once.
#[derive(Debug)]
pub struct McpServerRegistry {
    tools: Vec<McpToolDescriptor>,
    resources: Vec<McpResource>,
}

impl McpServerRegistry {
    /// The tools, in order of first registration.
    pub closed spec fn tools(&self) -> Seq<ToolView> {
        tool_views(self.tools@)
    }

    /// The resources, in order of first registration.
    pub closed spec fn resources(&self) -> Seq<ResourceView> {
        resource_views(self.resources@)
    }

    pub fn new() -> (r: Self)
        ensures
            r.tools().len() == 0,
            r.resources().len() == 0,
            tool_names_distinct(r.tools()),
            resource_uris_distinct(r.resources()),
    {
        McpServerRegistry { tools: Vec::new(), resources: Vec::new() }
    }

    /// Expose a tool, replacing the one with the same name.
    pub fn register_tool(&mut self, descriptor: McpToolDescriptor)
        ensures
            final(self).resources() == old(self).resources(),
            tool_names_distinct(old(self).tools()) ==> tool_names_distinct(final(self).tools()),
            tool_index(old(self).tools(), descriptor@.name) >= 0 ==> final(self).tools() == old(self).tools().update(
                tool_index(old(self).tools(), descriptor@.name),
                descriptor@,
            ),
            tool_index(old(self).tools(), descriptor@.name) < 0 ==> final(self).tools() == old(self).tools().push(
                descriptor@,
            ),
    {
        let ghost before = self.tools();
        let ghost dv = descriptor@;
        match find_tool(&self.tools, descriptor.name.as_str()) {
            Some(i) => {
                self.tools.remove(i);
                self.tools.insert(i, descriptor);
                assert(self.tools() =~= before.update(i as int, dv));
                assert(tool_names_distinct(before) ==> tool_names_distinct(self.tools())) by {
                    if tool_names_distinct(before) {
                        let u = self.tools();
                        assert forall|a: int, b: int| 0 <= a < b < u.len() implies (#[trigger] u[a]).name
                            != (#[trigger] u[b]).name by {
                            assert(before[a].name != before[b].name);
                        }
                    }
                }
            },
            None => {
                self.tools.push(descriptor);
                assert(self.tools() =~= before.push(dv));
                assert(tool_names_distinct(before) ==> tool_names_distinct(self.tools())) by {
                    if tool_names_distinct(before) {
                        let u = self.tools();
                        assert forall|a: int, b: int| 0 <= a < b < u.len() implies (#[trigger] u[a]).name
                            != (#[trigger] u[b]).name by {
                            if b < before.len() {
                                assert(before[a].name != before[b].name);
                            } else {
                                assert(before[a] == self.tools@[a]@);
                            }
                        }
                    }
                }
            },
        }
    }

    fn find_resource(&self, uri: &str) -> (r: Option<usize>)
        ensures
            match r {
                Some(i) => i == resource_index(self.resources(), uri@) && i < self.resources@.len()
                    && self.resources()[i as int].uri == uri@,
                None => resource_index(self.resources(), uri@) == -1 && forall|j: int|
                    0 <= j < self.resources@.len() ==> (#[trigger] self.resources()[j]).uri != uri@,
            },
    {
        let ghost rv = self.resources();
        let mut i: usize = 0;
        while i < self.resources.len()
            invariant
                0 <= i <= self.resources@.len(),
                rv == resource_views(self.resources@),
                forall|j: int| 0 <= j < i ==> (#[trigger] rv[j]).uri != uri@,
            decreases self.resources@.len() - i,
        {
            assert(rv[i as int] == self.resources@[i as int]@);
            if str_eq(self.resources[i].uri.as_str(), uri) {
                proof {
                    lemma_resource_index(rv, uri@, i as int);
                }
                return Some(i);
            }
            i = i + 1;
        }
        proof {
            lemma_resource_index(rv, uri@, i as int);
        }
        None
    }

    /// Expose a resource, replacing the one with the same uri.
    pub fn register_resource(&mut self, resource: McpResource)
        ensures
            final(self).tools() == old(self).tools(),
            resource_uris_distinct(old(self).resources()) ==> resource_uris_distinct(final(self).resources()),
            resource_index(old(self).resources(), resource@.uri) >= 0 ==> final(self).resources()
                == old(self).resources().update(
                resource_index(old(self).resources(), resource@.uri),
                resource@,
            ),
            resource_index(old(self).resources(), resource@.uri) < 0 ==> final(self).resources()
                == old(self).resources().push(resource@),
    {
        let ghost before = self.resources();
        let ghost rv = resource@;
        match self.find_resource(resource.uri.as_str()) {
            Some(i) => {
                self.resources.remove(i);
                self.resources.insert(i, resource);
                assert(self.resources() =~= before.update(i as int, rv));
                assert(resource_uris_distinct(before) ==> resource_uris_distinct(self.resources())) by {
                    if resource_uris_distinct(before) {
                        let u = self.resources();
                        assert forall|a: int, b: int| 0 <= a < b < u.len() implies (#[trigger] u[a]).uri
                            != (#[trigger] u[b]).uri by {
                            assert(before[a].uri != before[b].uri);
                        }
                    }
                }
            },
            None => {
                self.resources.push(resource);
                assert(self.resources() =~= before.push(rv));
                assert(resource_uris_distinct(before) ==> resource_uris_distinct(self.resources())) by {
                    if resource_uris_distinct(before) {
                        let u = self.resources();
                        assert forall|a: int, b: int| 0 <= a < b < u.len() implies (#[trigger] u[a]).uri
                            != (#[trigger] u[b]).uri by {
                            if b < before.len() {
                                assert(before[a].uri != before[b].uri);
                            }
                        }
                    }
                }
            },
        }
    }

    /// Copies of the exposed tools.
    pub fn list_tools(&self) -> (r: Vec<McpToolDescriptor>)
        ensures
            tool_views(r@) == self.tools(),
    {
        clone_tools(&self.tools)
    }

    /// A copy of the tool with the given name.
    pub fn get_tool(&self, name: &str) -> (r: Option<McpToolDescriptor>)
        ensures
            tool_index(self.tools(), name@) >= 0 ==> (r matches Some(t) && t@ == self.tools()[tool_index(
                self.tools(),
                name@,
            )]),
            tool_index(self.tools(), name@) < 0 ==> r is None,
    {
        match find_tool(&self.tools, name) {
            Some(i) => Some(self.tools[i].clone()),
            None => None,
        }
    }

    /// Copies of the exposed resources.
    pub fn list_resources(&self) -> (r: Vec<McpResource>)
        ensures
            resource_views(r@) == self.resources(),
    {
        clone_resources(&self.resources)
    }

    /// A copy of the resource with the given uri.
    pub fn get_resource(&self, uri: &str) -> (r: Option<McpResource>)
        ensures
            resource_index(self.resources(), uri@) >= 0 ==> (r matches Some(x) && x@
                == self.resources()[resource_index(self.resources(), uri@)]),
            resource_index(self.resources(), uri@) < 0 ==> r is None,
    {
        match self.find_resource(uri) {
            Some(i) => Some(self.resources[i].clone()),
            None => None,
        }
    }

    pub fn tool_count(&self) -> (r: usize)
        ensures
            r == self.tools().len(),
    {
        self.tools.len()
    }

    pub fn resource_count(&self) -> (r: usize)
        ensures
            r == self.resources().len(),
    {
        self.resources.len()
    }
}

impl Default for McpServerRegistry {
    fn default() -> (r: Self)
        ensures
            r.tools().len() == 0,
            r.resources().len() == 0,
    {
        McpServerRegistry::new()
    }
}

/// A connection to an outside MCP server.
#[derive(Debug)]
pub struct McpClientConnection {
    pub name: String,
    pub url: String,
    pub available_tools: Vec<McpToolDescriptor>,
    pub available_resources: Vec<McpResource>,
    pub connected: bool,
}

pub struct ConnectionView {
    pub name: Seq<char>,
    pub url: Seq<char>,
    pub tools: Seq<ToolView>,
    pub resources: Seq<ResourceView>,
    pub connected: bool,
}

impl View for McpClientConnection {
    type V = ConnectionView;

    open spec fn view(&self) -> ConnectionView {
        ConnectionView {
            name: self.name@,
            url: self.url@,
            tools: tool_views(self.available_tools@),
            resources: resource_views(self.available_resources@),
            connected: self.connected,
        }
    }
}

impl Clone for McpClientConnection {
    fn clone(&self) -> (r: Self)
        ensures
            r@ == self@,
    {
        McpClientConnection {
            name: self.name.clone(),
            url: self.url.clone(),
            available_tools: clone_tools(&self.available_tools),
            available_resources: clone_resources(&self.available_resources),
            connected: self.connected,
        }
    }
}

/// A connection after disconnecting: not connected, nothing available.
pub open spec fn disconnected(c: ConnectionView) -> ConnectionView {
    ConnectionView { connected: false, tools: Seq::empty(), resources: Seq::empty(), ..c }
}

impl McpClientConnection {
    /// A connection not yet made, with nothing discovered.
    pub fn new(name: String, url: String) -> (r: Self)
        ensures
            r@ == (ConnectionView {
                name: name@,
                url: url@,
                tools: Seq::empty(),
                resources: Seq::empty(),
                connected: false,
            }),
    {
        let r = McpClientConnection {
            name,
            url,
            available_tools: Vec::new(),
            available_resources: Vec::new(),
            connected: false,
        };
        assert(r@.tools =~= Seq::<ToolView>::empty());
        assert(r@.resources =~= Seq::<ResourceView>::empty());
        r
    }

    /// Discover the server's tools: the connection is marked connected and
    /// nothing else changes.
    pub fn discover(&mut self) -> (r: Result<(), ()>)
        ensures
            r is Ok,
            final(self)@ == (ConnectionView { connected: true, ..old(self)@ }),
    {
        self.connected = true;
        Ok(())
    }

    pub fn is_connected(&self) -> (r: bool)
        ensures
            r == self@.connected,
    {
        self.connected
    }

    /// Disconnect, forgetting the discovered tools and resources.
    pub fn disconnect(&mut self)
        ensures
            final(self)@ == disconnected(old(self)@),
    {
        self.connected = false;
        self.available_tools.clear();
        self.available_resources.clear();
        assert(self@.tools =~= Seq::<ToolView>::empty());
        assert(self@.resources =~= Seq::<ResourceView>::empty());
    }
}

pub open spec fn connection_views(cs: Seq<McpClientConnection>) -> Seq<ConnectionView> {
    cs.map_values(|c: McpClientConnection| c@)
}

/// The index of the first connection with the given name, or -1.
pub open spec fn connection_index(cs: Seq<ConnectionView>, name: Seq<char>) -> int
    decreases cs.len(),
{
    if cs.len() == 0 {
        -1
    } else if cs[0].name == name {
        0
    } else if connection_index(cs.drop_first(), name) < 0 {
        -1
    } else {
        1 + connection_index(cs.drop_first(), name)
    }
}

proof fn lemma_connection_index(cs: Seq<ConnectionView>, name: Seq<char>, i: int)
    requires
        0 <= i <= cs.len(),
        forall|j: int| 0 <= j < i ==> (#[trigger] cs[j]).name != name,
        i == cs.len() || cs[i].name == name,
    ensures
        connection_index(cs, name) == if i == cs.len() {
            -1
        } else {
            i
        },
    decreases i,
{
    if i > 0 {
        assert forall|j: int| 0 <= j < i - 1 implies (#[trigger] cs.drop_first()[j]).name
            != name by {
            assert(cs.drop_first()[j] == cs[j + 1]);
        }
        if i < cs.len() {
            assert(cs.drop_first()[i - 1] == cs[i]);
        }
        lemma_connection_index(cs.drop_first(), name, i - 1);
    }
}

/// How many connections are connected.
pub open spec fn connected_in(cs: Seq<ConnectionView>) -> nat {
    cs.filter(|c: ConnectionView| c.connected).len()
}

/// The tools of the connected connections, each with its connection's name,
/// connection by connection.
pub open spec fn available_in(cs: Seq<ConnectionView>) -> Seq<(Seq<char>, ToolView)>
    decreases cs.len(),
{
    if cs.len() == 0 {
        Seq::empty()
    } else {
        let last = cs.last();
        available_in(cs.drop_last()) + if last.connected {
            last.tools.map_values(|t: ToolView| (last.name, t))
        } else {
            Seq::empty()
        }
    }
}

/// The connections to outside MCP servers, each name at most once.
#[derive(Debug)]
pub struct McpClientManager {
    connections: Vec<McpClientConnection>,
}

impl McpClientManager {
    /// The connections, in order of first addition.
    pub closed spec fn connections(&self) -> Seq<ConnectionView> {
        connection_views(self.connections@)
    }

    pub fn new() -> (r: Self)
        ensures
            r.connections().len() == 0,
            connection_names_distinct(r.connections()),
    {
        McpClientManager { connections: Vec::new() }
    }

    fn find(&self, name: &str) -> (r: Option<usize>)
        ensures
            match r {
                Some(i) => i == connection_index(self.connections(), name@) && i
                    < self.connections@.len() && self.connections()[i as int].name == name@,
                None => connection_index(self.connections(), name@) == -1 && forall|j: int|
                    0 <= j < self.connections@.len() ==> (#[trigger] self.connections()[j]).name != name@,
            },
    {
        let ghost cs = self.connections();
        let mut i: usize = 0;
        while i < self.connections.len()
            invariant
                0 <= i <= self.connections@.len(),
                cs == connection_views(self.connections@),
                forall|j: int| 0 <= j < i ==> (#[trigger] cs[j]).name != name@,
            decreases self.connections@.len() - i,
        {
            assert(cs[i as int] == self.connections@[i as int]@);
            if str_eq(self.connections[i].name.as_str(), name) {
                proof {
                    lemma_connection_index(cs, name@, i as int);
                }
                return Some(i);
            }
            i = i + 1;
        }
        proof {
            lemma_connection_index(cs, name@, i as int);
        }
        None
    }

    /// Add a connection, replacing the one with the same name.
    pub fn add_connection(&mut self, conn: McpClientConnection)
        ensures
            connection_names_distinct(old(self).connections()) ==> connection_names_distinct(
                final(self).connections(),
            ),
            connection_index(old(self).connections(), conn@.name) >= 0 ==> final(self).connections()
                == old(self).connections().update(
                connection_index(old(self).connections(), conn@.name),
                conn@,
            ),
            connection_index(old(self).connections(), conn@.name) < 0 ==> final(self).connections()
                == old(self).connections().push(conn@),
    {
        let ghost before = self.connections();
        let ghost cv = conn@;
        match self.find(conn.name.as_str()) {
            Some(i) => {
                self.connections.remove(i);
                self.connections.insert(i, conn);
                assert(self.connections() =~= before.update(i as int, cv));
                assert(connection_names_distinct(before) ==> connection_names_distinct(self.connections()))
                    by {
                    if connection_names_distinct(before) {
                        let u = self.connections();
                        assert forall|a: int, b: int| 0 <= a < b < u.len() implies (#[trigger] u[a]).name
                            != (#[trigger] u[b]).name by {
                            assert(before[a].name != before[b].name);
                        }
                    }
                }
            },
            None => {
                self.connections.push(conn);
                assert(self.connections() =~= before.push(cv));
                assert(connection_names_distinct(before) ==> connection_names_distinct(self.connections()))
                    by {
                    if connection_names_distinct(before) {
                        let u = self.connections();
                        assert forall|a: int, b: int| 0 <= a < b < u.len() implies (#[trigger] u[a]).name
                            != (#[trigger] u[b]).name by {
                            if b < before.len() {
                                assert(before[a].name != before[b].name);
                            }
                        }
                    }
                }
            },
        }
    }

    /// A copy of the connection with the given name.
    pub fn get_connection(&self, name: &str) -> (r: Option<McpClientConnection>)
        ensures
            connection_index(self.connections(), name@) >= 0 ==> (r matches Some(c) && c@
                == self.connections()[connection_index(self.connections(), name@)]),
            connection_index(self.connections(), name@) < 0 ==> r is None,
    {
        match self.find(name) {
            Some(i) => Some(self.connections[i].clone()),
            None => None,
        }
    }

    /// The connection with the given name, to change in place.
    pub fn get_connection_mut(&mut self, name: &str) -> (r: Option<&mut McpClientConnection>)
        ensures
            connection_index(old(self).connections(), name@) < 0 ==> r is None && final(self).connections()
                == old(self).connections(),
            connection_index(old(self).connections(), name@) >= 0 ==> r is Some,
            r matches Some(c) ==> (*c)@ == old(self).connections()[connection_index(
                old(self).connections(),
                name@,
            )],
            r matches Some(c) ==> final(self).connections() == old(self).connections().update(
                connection_index(old(self).connections(), name@),
                (*final(c))@,
            ),
    {
        match self.find(name) {
            Some(i) => Some(&mut self.connections[i]),
            None => None,
        }
    }

    /// Copies of every connection.
    pub fn list_connections(&self) -> (r: Vec<McpClientConnection>)
        ensures
            connection_views(r@) == self.connections(),
    {
        let ghost cs = self.connections();
        let mut out: Vec<McpClientConnection> = Vec::new();
        let mut i: usize = 0;
        while i < self.connections.len()
            invariant
                0 <= i <= self.connections@.len(),
                cs == connection_views(self.connections@),
                connection_views(out@) == cs.take(i as int),
            decreases self.connections@.len() - i,
        {
            let ghost o0 = connection_views(out@);
            out.push(self.connections[i].clone());
            assert(connection_views(out@) =~= o0.push(cs[i as int]));
            assert(cs.take(i + 1) =~= cs.take(i as int).push(cs[i as int]));
            i = i + 1;
        }
        assert(cs.take(self.connections@.len() as int) =~= cs);
        out
    }

    pub fn connected_count(&self) -> (r: usize)
        ensures
            r == connected_in(self.connections()),
    {
        let ghost cs = self.connections();
        let mut n: usize = 0;
        let mut i: usize = 0;
        while i < self.connections.len()
            invariant
                0 <= i <= self.connections@.len(),
                cs == connection_views(self.connections@),
                n == connected_in(cs.take(i as int)),
                n <= i,
            decreases self.connections@.len() - i,
        {
            reveal_with_fuel(Seq::<_>::filter, 1);
            assert(cs.take(i + 1).drop_last() =~= cs.take(i as int));
            assert(cs.take(i + 1).last() == cs[i as int]);
            if self.connections[i].connected {
                n = n + 1;
            }
            i = i + 1;
        }
        assert(cs.take(self.connections@.len() as int) =~= cs);
        n
    }

    pub fn total_count(&self) -> (r: usize)
        ensures
            r == self.connections().len(),
    {
        self.connections.len()
    }

    /// The tools offered by every connected server, each with its server's
    /// name.
    pub fn all_available_tools(&self) -> (r: Vec<(String, McpToolDescriptor)>)
        ensures
            r@.map_values(|p: (String, McpToolDescriptor)| (p.0@, p.1@)) == available_in(
                self.connections(),
            ),
    {
        let ghost cs = self.connections();
        let mut out: Vec<(String, McpToolDescriptor)> = Vec::new();
        let mut i: usize = 0;
        while i < self.connections.len()
            invariant
                0 <= i <= self.connections@.len(),
                cs == connection_views(self.connections@),
                out@.map_values(|p: (String, McpToolDescriptor)| (p.0@, p.1@)) == available_in(
                    cs.take(i as int),
                ),
            decreases self.connections@.len() - i,
        {
            assert(cs.take(i + 1).drop_last() =~= cs.take(i as int));
            assert(cs.take(i + 1).last() == cs[i as int]);
            let c = &self.connections[i];
            let ghost cv = c@;
            let ghost base = out@.map_values(|p: (String, McpToolDescriptor)| (p.0@, p.1@));
            if c.connected {
                let mut k: usize = 0;
                while k < c.available_tools.len()
                    invariant
                        0 <= k <= c.available_tools@.len(),
                        cv == c@,
                        out@.map_values(|p: (String, McpToolDescriptor)| (p.0@, p.1@)) == base
                            + cv.tools.take(k as int).map_values(|t: ToolView| (cv.name, t)),
                    decreases c.available_tools@.len() - k,
                {
                    let ghost o0 = out@.map_values(|p: (String, McpToolDescriptor)| (p.0@, p.1@));
                    out.push((c.name.clone(), c.available_tools[k].clone()));
                    assert(out@.map_values(|p: (String, McpToolDescriptor)| (p.0@, p.1@)) =~= o0.push(
                        (cv.name, cv.tools[k as int]),
                    ));
                    assert(cv.tools.take(k + 1).map_values(|t: ToolView| (cv.name, t))
                        =~= cv.tools.take(k as int).map_values(|t: ToolView| (cv.name, t)).push(
                        (cv.name, cv.tools[k as int]),
                    ));
                    k = k + 1;
                }
                assert(cv.tools.take(cv.tools.len() as int) =~= cv.tools);
            } else {
                assert(base + Seq::<(Seq<char>, ToolView)>::empty() =~= base);
            }
            i = i + 1;
        }
        assert(cs.take(self.connections@.len() as int) =~= cs);
        out
    }

    /// Disconnect every connection.
    pub fn disconnect_all(&mut self)
        ensures
            final(self).connections() == old(self).connections().map_values(
                |c: ConnectionView| disconnected(c),
            ),
            connection_names_distinct(old(self).connections()) ==> connection_names_distinct(
                final(self).connections(),
            ),
    {
        let ghost cs = self.connections();
        let mut i: usize = 0;
        while i < self.connections.len()
            invariant
                0 <= i <= self.connections@.len(),
                self.connections@.len() == cs.len(),
                forall|j: int| 0 <= j < i ==> (#[trigger] self.connections@[j])@ == disconnected(cs[j]),
                forall|j: int| i <= j < cs.len() ==> (#[trigger] self.connections@[j])@ == cs[j],
            decreases self.connections@.len() - i,
        {
            let mut c = self.connections.remove(i);
            c.disconnect();
            self.connections.insert(i, c);
            i = i + 1;
        }
        assert(self.connections() =~= cs.map_values(|c: ConnectionView| disconnected(c)));
        assert(connection_names_distinct(cs) ==> connection_names_distinct(self.connections())) by {
            if connection_names_distinct(cs) {
                let u = self.connections();
                assert forall|a: int, b: int| 0 <= a < b < u.len() implies (#[trigger] u[a]).name
                    != (#[trigger] u[b]).name by {
                    assert(cs[a].name != cs[b].name);
                }
            }
        }
    }
}

impl Default for McpClientManager {
    fn default() -> (r: Self)
        ensures
            r.connections().len() == 0,
    {
        McpClientManager::new()
    }
}

/// MCP descriptors for the agent's tools, given as name, description and
/// JSON schema text, in order.
pub fn export_tools_as_mcp(tools: &[(String, String, String)]) -> (r: Vec<McpToolDescriptor>)
    ensures
        tool_views(r@) == tools@.map_values(
            |t: (String, String, String)|
                ToolView { name: t.0@, description: t.1@, input_schema: t.2@ },
        ),
{
    let ghost want = tools@.map_values(
        |t: (String, String, String)| ToolView { name: t.0@, description: t.1@, input_schema: t.2@ },
    );
    let mut out: Vec<McpToolDescriptor> = Vec::new();
    let mut i: usize = 0;
    while i < tools.len()
        invariant
            0 <= i <= tools@.len(),
            want == tools@.map_values(
                |t: (String, String, String)|
                    ToolView { name: t.0@, description: t.1@, input_schema: t.2@ },
            ),
            tool_views(out@) == want.take(i as int),
        decreases tools@.len() - i,
    {
        let ghost o0 = tool_views(out@);
        let d = McpToolDescriptor {
            name: tools[i].0.clone(),
            description: tools[i].1.clone(),
            input_schema: tools[i].2.clone(),
        };
        out.push(d);
        assert(tool_views(out@) =~= o0.push(want[i as int]));
        assert(want.take(i + 1) =~= want.take(i as int).push(want[i as int]));
        i = i + 1;
    }
    assert(want.take(tools@.len() as int) =~= want);
    out
}

/// Which of the agent's tools MCP clients may see and call: never a
/// forbidden tool; with an allow-list, only the tools it names.
pub struct IroncladMcpHandler {
    allow_list: Option<Vec<String>>,
}

/// What becomes of an MCP client's call of a tool.
#[derive(Debug, Clone, Copy, PartialEq, Eq, Structural)]
pub enum McpCallDecision {
    /// No tool has that name.
    Unknown,
    /// The tool exists but is not available over MCP.
    NotAvailable,
    /// The tool may run.
    Run,
}

pub open spec fn exposed(allow: Option<Seq<Seq<char>>>, name: Seq<char>, risk: RiskLevel) -> bool {
    risk != RiskLevel::Forbidden && match allow {
        Some(names) => names.contains(name),
        None => true,
    }
}

impl IroncladMcpHandler {
    /// The allow-list, when one is set.
    pub closed spec fn allowed(&self) -> Option<Seq<Seq<char>>> {
        match self.allow_list {
            Some(v) => Some(v@.map_values(|s: String| s@)),
            None => None,
        }
    }

    pub fn new() -> (r: Self)
        ensures
            r.allowed() is None,
    {
        IroncladMcpHandler { allow_list: None }
    }

    /// Restrict the visible tools to those named.
    pub fn with_allow_list(self, allow_list: Vec<String>) -> (r: Self)
        ensures
            r.allowed() == Some(allow_list@.map_values(|s: String| s@)),
    {
        IroncladMcpHandler { allow_list: Some(allow_list) }
    }

    /// Whether MCP clients see the tool.
    pub fn is_tool_exposed(&self, name: &str, risk: RiskLevel) -> (r: bool)
        ensures
            r == exposed(self.allowed(), name@, risk),
    {
        if risk == RiskLevel::Forbidden {
            return false;
        }
        match &self.allow_list {
            Some(names) => {
                let ghost ns = names@.map_values(|s: String| s@);
                assert(self.allowed() == Some(ns));
                let mut i: usize = 0;
                while i < names.len()
                    invariant
                        0 <= i <= names@.len(),
                        ns == names@.map_values(|s: String| s@),
                        self.allowed() == Some(ns),
                        risk != RiskLevel::Forbidden,
                        forall|j: int| 0 <= j < i ==> ns[j] != name@,
                    decreases names@.len() - i,
                {
                    if str_eq(names[i].as_str(), name) {
                        assert(ns[i as int] == name@);
                        assert(ns.contains(name@));
                        return true;
                    }
                    i = i + 1;
                }
                false
            },
            None => true,
        }
    }

    /// The tools MCP clients see, of the tools given by name and risk, in
    /// order.
    pub fn exposed_tools(&self, tools: &[(String, RiskLevel)]) -> (r: Vec<usize>)
        ensures
            r@.map_values(|i: usize| tools@[i as int].0@) == tools@.filter(
                |t: (String, RiskLevel)| exposed(self.allowed(), t.0@, t.1),
            ).map_values(|t: (String, RiskLevel)| t.0@),
            forall|k: int| 0 <= k < r@.len() ==> #[trigger] r@[k] < tools@.len(),
    {
        let ghost keep = |t: (String, RiskLevel)| exposed(self.allowed(), t.0@, t.1);
        let mut out: Vec<usize> = Vec::new();
        let mut i: usize = 0;
        while i < tools.len()
            invariant
                0 <= i <= tools@.len(),
                keep == (|t: (String, RiskLevel)| exposed(self.allowed(), t.0@, t.1)),
                forall|k: int| 0 <= k < out@.len() ==> #[trigger] out@[k] < i,
                out@.map_values(|j: usize| tools@[j as int].0@) == tools@.take(i as int).filter(keep).map_values(
                    |t: (String, RiskLevel)| t.0@,
                ),
            decreases tools@.len() - i,
        {
            reveal_with_fuel(Seq::<_>::filter, 1);
            assert(tools@.take(i + 1).drop_last() =~= tools@.take(i as int));
            assert(tools@.take(i + 1).last() == tools@[i as int]);
            let ghost f0 = tools@.take(i as int).filter(keep);
            let ghost o0 = out@.map_values(|j: usize| tools@[j as int].0@);
            if self.is_tool_exposed(tools[i].0.as_str(), tools[i].1) {
                out.push(i);
                assert(out@.map_values(|j: usize| tools@[j as int].0@) =~= o0.push(tools@[i as int].0@));
                assert(f0.push(tools@[i as int]).map_values(|t: (String, RiskLevel)| t.0@) =~= f0.map_values(
                    |t: (String, RiskLevel)| t.0@,
                ).push(tools@[i as int].0@));
            } else {
                assert(tools@.take(i + 1).filter(keep) == f0);
            }
            i = i + 1;
        }
        assert(tools@.take(tools@.len() as int) =~= tools@);
        out
    }

    /// What becomes of a call of the named tool, given the risk of the tool
    /// with that name when there is one: a forbidden tool, or one off the
    /// allow-list, never runs.
    pub fn call_decision(&self, name: &str, tool_risk: Option<RiskLevel>) -> (r: McpCallDecision)
        ensures
            r == match tool_risk {
                None => McpCallDecision::Unknown,
                Some(risk) => if exposed(self.allowed(), name@, risk) {
                    McpCallDecision::Run
                } else {
                    McpCallDecision::NotAvailable
                },
            },
    {
        match tool_risk {
            None => McpCallDecision::Unknown,
            Some(risk) => if self.is_tool_exposed(name, risk) {
                McpCallDecision::Run
            } else {
                McpCallDecision::NotAvailable
            },
        }
    }
}

impl Default for IroncladMcpHandler {
    fn default() -> (r: Self)
        ensures
            r.allowed() is None,
    {
        IroncladMcpHandler::new()
    }
}

} // verus!
