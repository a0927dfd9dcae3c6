use ironclad_agent::discovery::{
    build_advertisement, DiscoveredAgent, DiscoveryError, DiscoveryMethod, DiscoveryRegistry,
};

const HOUR_MS: i64 = 3_600_000;
const NOW_MS: i64 = 1_700_000_000_000;

fn test_agent(id: &str) -> DiscoveredAgent {
    DiscoveredAgent {
        agent_id: id.to_string(),
        name: format!("Agent {id}"),
        url: format!("http://{id}.local:3000"),
        capabilities: vec!["research".to_string(), "coding".to_string()],
        verified: false,
        discovered_at: NOW_MS,
        last_seen: NOW_MS,
        discovery_method: DiscoveryMethod::MDns,
    }
}

#[test]
fn build_advertisement_records() {
    let caps = vec!["research".to_string(), "coding".to_string()];
    let (srv, txt) = build_advertisement("agent-1", "myhost.local", 3000, &caps);
    assert_eq!(srv.port, 3000);
    assert_eq!(txt.entry("agent_id").unwrap(), "agent-1");
    assert!(txt.entry("caps").unwrap().contains("research"));
}

#[test]
fn discovery_method_display() {
    assert_eq!(DiscoveryMethod::DnsSd.to_display_string(), "DNS-SD");
    assert_eq!(DiscoveryMethod::MDns.to_display_string(), "mDNS");
    assert_eq!(DiscoveryMethod::Manual.to_display_string(), "manual");
    assert_eq!(DiscoveryMethod::A2AHandshake.to_display_string(), "A2A");
}

#[test]
fn register_and_get() {
    let mut reg = DiscoveryRegistry::new();
    reg.register(test_agent("agent-1"));
    assert_eq!(reg.count(), 1);
    assert!(reg.get("agent-1").is_some());
}

#[test]
fn verify_agent() {
    let mut reg = DiscoveryRegistry::new();
    reg.register(test_agent("agent-1"));
    assert!(reg.verified_agents().is_empty());

    reg.verify("agent-1").unwrap();
    assert_eq!(reg.verified_agents().len(), 1);
}

#[test]
fn verify_nonexistent() {
    let mut reg = DiscoveryRegistry::new();
    assert!(reg.verify("nope").is_err());
}

#[test]
fn remove_agent() {
    let mut reg = DiscoveryRegistry::new();
    reg.register(test_agent("agent-1"));
    let removed = reg.remove("agent-1");
    assert!(removed.is_some());
    assert_eq!(reg.count(), 0);
}

#[test]
fn discovery_find_by_capability() {
    let mut reg = DiscoveryRegistry::new();
    let mut a1 = test_agent("a1");
    a1.verified = true;
    reg.register(a1);

    let mut a2 = test_agent("a2");
    a2.capabilities = vec!["finance".to_string()];
    a2.verified = true;
    reg.register(a2);

    assert_eq!(reg.find_by_capability("research").len(), 1);
    assert_eq!(reg.find_by_capability("finance").len(), 1);
    assert_eq!(reg.find_by_capability("unknown").len(), 0);
}

#[test]
fn unverified_excluded_from_capability_search() {
    let mut reg = DiscoveryRegistry::new();
    reg.register(test_agent("unverified"));
    assert_eq!(reg.find_by_capability("research").len(), 0);
}

#[test]
fn prune_stale() {
    let mut reg = DiscoveryRegistry::new();
    let mut old = test_agent("old");
    old.last_seen = NOW_MS - 48 * HOUR_MS;
    reg.register(old);
    reg.register(test_agent("fresh"));

    let pruned = reg.prune_stale_at(NOW_MS, 24 * HOUR_MS);
    assert_eq!(pruned, 1);
    assert_eq!(reg.count(), 1);
    assert!(reg.get("fresh").is_some());
}

#[test]
fn register_replaces_same_id() {
    let mut reg = DiscoveryRegistry::new();
    reg.register(test_agent("a"));
    let mut again = test_agent("a");
    again.name = "Renamed".to_string();
    reg.register(again);
    assert_eq!(reg.count(), 1);
    assert_eq!(reg.get("a").unwrap().name, "Renamed");
}

#[test]
fn verify_at_sets_last_seen() {
    let mut reg = DiscoveryRegistry::new();
    reg.register(test_agent("a"));
    reg.verify_at("a", NOW_MS + 5).unwrap();
    let a = reg.get("a").unwrap();
    assert!(a.verified);
    assert_eq!(a.last_seen, NOW_MS + 5);
}

#[test]
fn touch_at_updates_only_the_agent() {
    let mut reg = DiscoveryRegistry::new();
    reg.register(test_agent("a"));
    reg.register(test_agent("b"));
    reg.touch_at("b", NOW_MS + 9);
    reg.touch_at("missing", NOW_MS + 9);
    assert_eq!(reg.get("a").unwrap().last_seen, NOW_MS);
    assert_eq!(reg.get("b").unwrap().last_seen, NOW_MS + 9);
}

#[test]
fn not_found_error_message() {
    let mut reg = DiscoveryRegistry::default();
    match reg.verify("ghost") {
        Err(e) => {
            assert!(matches!(e, DiscoveryError::NotFound(ref id) if id == "ghost"));
            assert_eq!(e.to_display_string(), "agent 'ghost' not found");
        }
        Ok(()) => panic!("expected an error"),
    }
}

#[test]
fn advertisement_txt_entries_in_order() {
    let caps = vec!["a".to_string(), "b".to_string()];
    let (srv, txt) = build_advertisement("x", "host", 1, &caps);
    assert_eq!(srv.service, "_ironclad");
    assert_eq!(srv.protocol, "_tcp");
    assert_eq!(srv.target, "host");
    assert_eq!(txt.service, "_ironclad._tcp");
    assert_eq!(txt.entry("caps").unwrap(), "a,b");
    assert_eq!(txt.entry("version").unwrap(), "0.1");
    assert!(txt.entry("missing").is_none());
}
