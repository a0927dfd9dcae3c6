use std::path::{Path, PathBuf};

use ironclad_agent::manifest::{
    compute_hash, needs_reload, validate_manifest, AgentManifest, ManifestError, ManifestLoader,
    PersonalitySpec,
};

#[test]
fn personality_spec_defaults() {
    let spec = PersonalitySpec::default();
    assert!(spec.role.is_empty());
    assert!(spec.style.is_empty());
    assert!(spec.directives.is_empty());
}

#[test]
fn compute_hash_deterministic() {
    let h1 = compute_hash("hello world");
    let h2 = compute_hash("hello world");
    let h3 = compute_hash("different");
    assert_eq!(h1, h2);
    assert_ne!(h1, h3);
}

#[test]
fn compute_hash_is_sha256_hex() {
    assert_eq!(
        compute_hash("hello world"),
        "b94d27b9934d3e08a52e52d7da7dabfac484efe37a5380ee9088f7ace2efcde9"
    );
}

#[test]
fn manifest_reject_empty_id() {
    assert_eq!(validate_manifest("", "Name"), Err(ManifestError::EmptyId));
}

#[test]
fn reject_empty_name() {
    assert_eq!(validate_manifest("agent", ""), Err(ManifestError::EmptyName));
}

#[test]
fn reject_invalid_id_characters() {
    assert_eq!(validate_manifest("bad id", "Name"), Err(ManifestError::InvalidId));
}

#[test]
fn reject_slash_in_id() {
    assert_eq!(validate_manifest("a/b", "Name"), Err(ManifestError::InvalidId));
}

#[test]
fn valid_manifest_accepted() {
    assert_eq!(validate_manifest("researcher", "Researcher"), Ok(()));
}

#[test]
fn reload_decisions() {
    let h = compute_hash("content");
    assert!(needs_reload(None, &h));
    assert!(!needs_reload(Some(&h), &h));
    assert!(needs_reload(Some("stale"), &h));
}

fn manifest(id: &str, name: &str, capabilities: &[&str]) -> AgentManifest {
    AgentManifest {
        id: id.into(),
        name: name.into(),
        description: String::new(),
        personality: PersonalitySpec::default(),
        capabilities: capabilities.iter().map(|c| c.to_string()).collect(),
        model_tier: None,
        tool_whitelist: Vec::new(),
        memory_budget_mb: None,
        cron: None,
        max_concurrent_sessions: None,
    }
}

fn loader_with(files: &[(&str, &str, &str, &[&str])]) -> ManifestLoader {
    let mut loader = ManifestLoader::new(PathBuf::from("/agents"));
    for (path, id, name, caps) in files {
        let content = format!("id = \"{id}\"\nname = \"{name}\"");
        let _ = loader.load(manifest(id, name, caps), path.to_string(), compute_hash(&content));
    }
    loader
}

#[test]
fn load_from_directory() {
    let loader = loader_with(&[("/agents/briefing.toml", "morning-briefing", "Morning Briefing Agent", &[])]);
    assert_eq!(loader.count(), 1);
    assert_eq!(loader.get("morning-briefing").unwrap().name, "Morning Briefing Agent");
}

#[test]
fn load_refuses_invalid_manifests() {
    let mut loader = ManifestLoader::new(PathBuf::from("/agents"));
    assert_eq!(
        loader.load(manifest("", "No ID", &[]), "/agents/empty.toml".into(), "h".into()),
        Err(ManifestError::EmptyId)
    );
    assert_eq!(
        loader.load(manifest("has spaces", "Bad", &[]), "/agents/bad.toml".into(), "h".into()),
        Err(ManifestError::InvalidId)
    );
    assert_eq!(
        loader.load(manifest("valid-id", "", &[]), "/agents/noname.toml".into(), "h".into()),
        Err(ManifestError::EmptyName)
    );
    assert_eq!(loader.count(), 0);
}

#[test]
fn manifest_find_by_capability() {
    let loader = loader_with(&[
        ("/agents/a.toml", "agent-a", "Agent A", &["summarization", "coding"]),
        ("/agents/b.toml", "agent-b", "Agent B", &["coding", "research"]),
    ]);
    let coders = loader.find_by_capability("coding");
    assert_eq!(coders.len(), 2);
    let summarizers = loader.find_by_capability("summarization");
    assert_eq!(summarizers.len(), 1);
    assert_eq!(summarizers[0].id, "agent-a");
    assert!(loader.find_by_capability("Coding").is_empty());
}

#[test]
fn list_all_manifests() {
    let loader = loader_with(&[
        ("/agents/a.toml", "a", "Agent A", &[]),
        ("/agents/b.toml", "b", "Agent B", &[]),
    ]);
    let all = loader.list();
    assert_eq!(all.len(), 2);
    assert_eq!(all[0].id, "a");
    assert_eq!(all[1].id, "b");
}

#[test]
fn directory_accessor() {
    let loader = ManifestLoader::new(PathBuf::from("/srv/agents"));
    assert_eq!(loader.directory(), Path::new("/srv/agents"));
}

#[test]
fn get_nonexistent_manifest() {
    let loader = ManifestLoader::new(PathBuf::from("/agents"));
    assert!(loader.get("nonexistent").is_none());
}

#[test]
fn hot_reload_detects_changes() {
    let mut loader = loader_with(&[("/agents/agent.toml", "hot", "Original", &[])]);
    assert_eq!(loader.get("hot").unwrap().name, "Original");
    let updated = "id = \"hot\"\nname = \"Updated\"";
    let changed = loader.reload_file(
        "/agents/agent.toml".into(),
        compute_hash(updated),
        Some(manifest("hot", "Updated", &[])),
    );
    assert_eq!(changed, Some("hot".to_string()));
    assert_eq!(loader.get("hot").unwrap().name, "Updated");
    assert_eq!(loader.count(), 1);
}

#[test]
fn no_changes_returns_empty() {
    let mut loader = loader_with(&[("/agents/stable.toml", "stable", "Stable Agent", &[])]);
    let same = "id = \"stable\"\nname = \"Stable Agent\"";
    assert_eq!(loader.loaded_hash("/agents/stable.toml"), Some(compute_hash(same).as_str()));
    let changed = loader.reload_file(
        "/agents/stable.toml".into(),
        compute_hash(same),
        Some(manifest("stable", "Renamed", &[])),
    );
    assert_eq!(changed, None);
    assert_eq!(loader.get("stable").unwrap().name, "Stable Agent");
}

#[test]
fn check_for_changes_new_file_added() {
    let mut loader = ManifestLoader::new(PathBuf::from("/agents"));
    assert_eq!(loader.count(), 0);
    let changed = loader.reload_file(
        "/agents/new_agent.toml".into(),
        "h".into(),
        Some(manifest("new", "New Agent", &[])),
    );
    assert_eq!(changed, Some("new".to_string()));
    assert_eq!(loader.count(), 1);
}

#[test]
fn reload_skips_unparsed_and_invalid_files() {
    let mut loader = ManifestLoader::new(PathBuf::from("/agents"));
    assert_eq!(loader.reload_file("/agents/bad.toml".into(), "h".into(), None), None);
    assert_eq!(
        loader.reload_file("/agents/x.toml".into(), "h".into(), Some(manifest("has/slash", "X", &[]))),
        None
    );
    assert_eq!(loader.count(), 0);
}

#[test]
fn check_for_changes_file_deleted() {
    let mut loader = loader_with(&[
        ("/agents/ephemeral.toml", "ephemeral", "Ephemeral Agent", &[]),
        ("/agents/kept.toml", "kept", "Kept Agent", &[]),
    ]);
    assert_eq!(loader.count(), 2);
    loader.retain_on_disk(&["/agents/kept.toml".to_string()]);
    assert_eq!(loader.count(), 1);
    assert!(loader.get("ephemeral").is_none());
    assert!(loader.get("kept").is_some());
}
