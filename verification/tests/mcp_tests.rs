use ironclad_agent::mcp::{
    export_tools_as_mcp, IroncladMcpHandler, McpCallDecision, McpClientConnection,
    McpClientManager, McpResource, McpServerRegistry, McpToolDescriptor,
};
use ironclad_agent::policy::RiskLevel;

fn sample_tool() -> McpToolDescriptor {
    McpToolDescriptor {
        name: "memory_search".to_string(),
        description: "Search agent memory".to_string(),
        input_schema: r#"{"type":"object","properties":{"query":{"type":"string"}}}"#.to_string(),
    }
}

fn sample_resource() -> McpResource {
    McpResource {
        uri: "ironclad://sessions/current".to_string(),
        name: "Current Session".to_string(),
        description: "The active session context".to_string(),
        mime_type: "application/json".to_string(),
    }
}

#[test]
fn server_registry_tools() {
    let mut reg = McpServerRegistry::new();
    reg.register_tool(sample_tool());
    assert_eq!(reg.tool_count(), 1);
    assert!(reg.get_tool("memory_search").is_some());
    assert!(reg.get_tool("nonexistent").is_none());
}

#[test]
fn server_registry_resources() {
    let mut reg = McpServerRegistry::new();
    reg.register_resource(sample_resource());
    assert_eq!(reg.resource_count(), 1);
    assert!(reg.get_resource("ironclad://sessions/current").is_some());
}

#[test]
fn server_registry_list() {
    let mut reg = McpServerRegistry::new();
    reg.register_tool(sample_tool());
    reg.register_resource(sample_resource());
    assert_eq!(reg.list_tools().len(), 1);
    assert_eq!(reg.list_resources().len(), 1);
}

#[test]
fn client_connection_lifecycle() {
    let mut conn = McpClientConnection::new("test-server".into(), "http://localhost:8080".into());
    assert!(!conn.is_connected());

    conn.discover().unwrap();
    assert!(conn.is_connected());

    conn.disconnect();
    assert!(!conn.is_connected());
}

#[test]
fn client_manager_basic() {
    let mut mgr = McpClientManager::new();
    let conn = McpClientConnection::new("server-a".into(), "http://a.example.com".into());
    mgr.add_connection(conn);

    assert_eq!(mgr.total_count(), 1);
    assert_eq!(mgr.connected_count(), 0);
    assert!(mgr.get_connection("server-a").is_some());
}

#[test]
fn client_manager_discover() {
    let mut mgr = McpClientManager::new();
    mgr.add_connection(McpClientConnection::new("s1".into(), "http://s1.local".into()));
    mgr.add_connection(McpClientConnection::new("s2".into(), "http://s2.local".into()));

    mgr.get_connection_mut("s1").unwrap().discover().unwrap();
    assert_eq!(mgr.connected_count(), 1);

    mgr.get_connection_mut("s2").unwrap().discover().unwrap();
    assert_eq!(mgr.connected_count(), 2);
}

#[test]
fn client_manager_disconnect_all() {
    let mut mgr = McpClientManager::new();
    let mut c1 = McpClientConnection::new("a".into(), "http://a".into());
    c1.discover().unwrap();
    mgr.add_connection(c1);

    let mut c2 = McpClientConnection::new("b".into(), "http://b".into());
    c2.discover().unwrap();
    mgr.add_connection(c2);

    assert_eq!(mgr.connected_count(), 2);
    mgr.disconnect_all();
    assert_eq!(mgr.connected_count(), 0);
}

#[test]
fn export_tools_as_mcp_conversion() {
    let tools = vec![
        (
            "tool_a".to_string(),
            "Description A".to_string(),
            "{}".to_string(),
        ),
        (
            "tool_b".to_string(),
            "Description B".to_string(),
            r#"{"type":"object"}"#.to_string(),
        ),
    ];
    let mcp_tools = export_tools_as_mcp(&tools);
    assert_eq!(mcp_tools.len(), 2);
    assert_eq!(mcp_tools[0].name, "tool_a");
    assert_eq!(mcp_tools[1].description, "Description B");
}

#[test]
fn all_available_tools_across_connections() {
    let mut mgr = McpClientManager::new();
    let mut c1 = McpClientConnection::new("s1".into(), "http://s1".into());
    c1.discover().unwrap();
    c1.available_tools.push(sample_tool());
    mgr.add_connection(c1);

    let c2 = McpClientConnection::new("s2".into(), "http://s2".into());
    mgr.add_connection(c2);

    let all_tools = mgr.all_available_tools();
    assert_eq!(all_tools.len(), 1);
    assert_eq!(all_tools[0].0, "s1");
}

#[test]
fn registering_a_tool_twice_replaces_it() {
    let mut reg = McpServerRegistry::default();
    reg.register_tool(sample_tool());
    let mut t = sample_tool();
    t.description = "changed".into();
    reg.register_tool(t);
    assert_eq!(reg.tool_count(), 1);
    assert_eq!(reg.get_tool("memory_search").unwrap().description, "changed");
}

#[test]
fn disconnect_forgets_discovered_tools() {
    let mut c = McpClientConnection::new("s".into(), "u".into());
    c.discover().unwrap();
    c.available_tools.push(sample_tool());
    c.available_resources.push(sample_resource());
    c.disconnect();
    assert!(c.available_tools.is_empty());
    assert!(c.available_resources.is_empty());
    assert_eq!(c.name, "s");
}

#[test]
fn list_connections_in_order() {
    let mut mgr = McpClientManager::default();
    mgr.add_connection(McpClientConnection::new("a".into(), "1".into()));
    mgr.add_connection(McpClientConnection::new("b".into(), "2".into()));
    let names: Vec<String> = mgr.list_connections().into_iter().map(|c| c.name).collect();
    assert_eq!(names, vec!["a", "b"]);
    assert!(mgr.get_connection_mut("zzz").is_none());
}

fn registry_tools() -> Vec<(String, RiskLevel)> {
    vec![
        ("echo".to_string(), RiskLevel::Safe),
        ("nuke".to_string(), RiskLevel::Forbidden),
        ("fail".to_string(), RiskLevel::Safe),
    ]
}

#[test]
fn list_tools_excludes_forbidden() {
    let handler = IroncladMcpHandler::new();
    let tools = registry_tools();
    let names: Vec<&str> = handler
        .exposed_tools(&tools)
        .into_iter()
        .map(|i| tools[i].0.as_str())
        .collect();
    assert_eq!(names, vec!["echo", "fail"]);
}

#[test]
fn list_tools_respects_allow_list() {
    let handler = IroncladMcpHandler::new().with_allow_list(vec!["echo".into(), "nuke".into()]);
    let tools = registry_tools();
    let names: Vec<&str> = handler
        .exposed_tools(&tools)
        .into_iter()
        .map(|i| tools[i].0.as_str())
        .collect();
    assert_eq!(names, vec!["echo"]);
}

#[test]
fn execute_unknown_tool_returns_error() {
    let handler = IroncladMcpHandler::default();
    assert_eq!(handler.call_decision("missing", None), McpCallDecision::Unknown);
}

#[test]
fn execute_forbidden_tool_returns_error() {
    let handler = IroncladMcpHandler::new().with_allow_list(vec!["nuke".into()]);
    assert_eq!(
        handler.call_decision("nuke", Some(RiskLevel::Forbidden)),
        McpCallDecision::NotAvailable
    );
}

#[test]
fn execute_tool_success() {
    let handler = IroncladMcpHandler::new();
    assert_eq!(handler.call_decision("echo", Some(RiskLevel::Safe)), McpCallDecision::Run);
    assert!(handler.is_tool_exposed("anything", RiskLevel::Dangerous));
}

#[test]
fn call_off_allow_list_is_refused() {
    let handler = IroncladMcpHandler::new().with_allow_list(vec!["echo".into()]);
    assert_eq!(
        handler.call_decision("fail", Some(RiskLevel::Safe)),
        McpCallDecision::NotAvailable
    );
    assert!(!handler.is_tool_exposed("fail", RiskLevel::Safe));
    assert!(handler.is_tool_exposed("echo", RiskLevel::Caution));
}
