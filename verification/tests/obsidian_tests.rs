use ironclad_agent::obsidian::{
    extract_tags, fill_template, frontmatter_with_defaults, note_file_content, obsidian_uri,
    filter_search_hits, parse_wikilink, parse_wikilink_targets, path_to_title, search_request_ok, split_frontmatter, truncate, uses_default_folder,
    FrontmatterTags, ObsidianNote, VaultIndex,
};
use ironclad_agent::policy::JsonValue;

#[test]
fn parse_frontmatter_with_tags() {
    let raw = "---\ntags:\n  - rust\n  - coding\ntitle: Test\n---\n\nHello world";
    let (fm, content) = split_frontmatter(raw).unwrap();
    assert!(fm.contains("tags:"));
    assert_eq!(content, "Hello world");
    let declared = FrontmatterTags::List(vec![Some("rust".into()), Some("coding".into())]);
    let tags = extract_tags(&declared, &content);
    assert!(tags.contains(&"rust".to_string()));
    assert!(tags.contains(&"coding".to_string()));
}

#[test]
fn parse_frontmatter_none_without_dashes() {
    let raw = "No frontmatter here";
    assert!(split_frontmatter(raw).is_none());
}

#[test]
fn extract_inline_tags() {
    let content = "Hello #rust and #coding are great. Not# a tag.";
    let tags = extract_tags(&FrontmatterTags::Absent, content);
    assert!(tags.contains(&"rust".to_string()));
    assert!(tags.contains(&"coding".to_string()));
    assert_eq!(tags.len(), 2);
}

#[test]
fn parse_wikilink_simple() {
    let link = parse_wikilink("[[My Note]]");
    assert_eq!(link.target, "My Note");
    assert!(link.display.is_none());
    assert!(link.heading.is_none());
}

#[test]
fn parse_wikilink_with_display() {
    let link = parse_wikilink("[[Target|Display Text]]");
    assert_eq!(link.target, "Target");
    assert_eq!(link.display.as_deref(), Some("Display Text"));
}

#[test]
fn parse_wikilink_with_heading() {
    let link = parse_wikilink("[[Note#Section]]");
    assert_eq!(link.target, "Note");
    assert_eq!(link.heading.as_deref(), Some("Section"));
}

#[test]
fn parse_wikilink_targets_from_content() {
    let content = "See [[Note A]] and [[Note B|alias]] and [[Note A]] again.";
    let targets = parse_wikilink_targets(content);
    assert_eq!(targets, vec!["Note A", "Note B"]);
}

#[test]
fn obsidian_uri_generation() {
    let uri = obsidian_uri("My Vault", "folder/My Note.md");
    assert!(uri.starts_with("obsidian://open?vault="));
    assert!(uri.contains("file="));
    assert!(!uri.contains(".md"));
    assert_eq!(uri, "obsidian://open?vault=My%20Vault&file=folder%2FMy%20Note");
}

#[test]
fn template_application() {
    let raw = "# {{title}}\n\nDate: {{date}}\n\n## Notes\n";
    let vars = vec![("title".to_string(), "My Daily Note".to_string())];
    let result = fill_template(raw, &vars, "2025-01-02", "10:11:12");
    assert!(result.contains("# My Daily Note"));
    assert!(result.contains("Date:"));
    assert!(!result.contains("{{title}}"));
    assert!(!result.contains("{{date}}"));
    assert_eq!(result, "# My Daily Note\n\nDate: 2025-01-02\n\n## Notes\n");
}

#[test]
fn template_replaces_every_occurrence_and_time() {
    let vars = vec![("x".to_string(), "1".to_string())];
    assert_eq!(fill_template("{{x}}-{{x}} {{time}}", &vars, "d", "t"), "1-1 t");
    assert_eq!(fill_template("{{unknown}}", &vars, "d", "t"), "{{unknown}}");
}

#[test]
fn write_note_creates_file() {
    let fm = frontmatter_with_defaults(None, "2025-01-02T03:04:05".to_string());
    match fm {
        JsonValue::Object(entries) => {
            assert_eq!(entries.len(), 2);
            assert_eq!(entries[0].0, "created_by");
            assert!(matches!(entries[0].1, JsonValue::Str(ref s) if s == "ironclad"));
            assert_eq!(entries[1].0, "created_at");
        }
        _ => panic!("frontmatter must be an object"),
    }
    let text = note_file_content(Some("created_by: ironclad\n"), "Hello from Ironclad");
    assert!(text.contains("Hello from Ironclad"));
    assert!(text.contains("created_by: ironclad"));
    assert_eq!(text, "---\ncreated_by: ironclad\n---\n\nHello from Ironclad");
}

#[test]
fn write_note_with_frontmatter() {
    let given = JsonValue::Object(vec![
        ("status".to_string(), JsonValue::Str("draft".to_string())),
        ("created_by".to_string(), JsonValue::Str("someone".to_string())),
    ]);
    match frontmatter_with_defaults(Some(given), "now".to_string()) {
        JsonValue::Object(entries) => {
            let keys: Vec<&str> = entries.iter().map(|e| e.0.as_str()).collect();
            assert_eq!(keys, vec!["status", "created_by", "created_at"]);
            assert!(matches!(entries[1].1, JsonValue::Str(ref s) if s == "someone"));
        }
        _ => panic!("frontmatter must be an object"),
    }
}

#[test]
fn frontmatter_from_a_non_object_starts_empty() {
    match frontmatter_with_defaults(Some(JsonValue::Bool(true)), "now".to_string()) {
        JsonValue::Object(entries) => assert_eq!(entries.len(), 2),
        _ => panic!("frontmatter must be an object"),
    }
}

#[test]
fn note_without_frontmatter_is_the_content() {
    assert_eq!(note_file_content(None, "body"), "body");
}

#[test]
fn default_folder_only_for_bare_names() {
    assert!(uses_default_folder("note"));
    assert!(!uses_default_folder("dir/note"));
    assert!(!uses_default_folder("dir\\note"));
}

#[test]
fn truncate_marks_cut_excerpts() {
    assert_eq!(truncate("short", 10), "short");
    assert_eq!(truncate("abcdef", 3), "abc...");
}

fn note(path: &str, title: &str, content: &str, tags: &[&str]) -> ObsidianNote {
    ObsidianNote {
        path: path.to_string(),
        title: title.to_string(),
        content: content.to_string(),
        frontmatter: None,
        tags: tags.iter().map(|t| t.to_string()).collect(),
        outgoing_links: parse_wikilink_targets(content),
        created_at: None,
        modified_at: None,
    }
}

#[test]
fn vault_scan_and_search() {
    let mut vault = VaultIndex::new();
    vault.add_scanned("alpha.md".into(), note("/v/alpha.md", "alpha", "Rust programming notes", &["rust"]));
    vault.add_scanned("beta.md".into(), note("/v/beta.md", "beta", "Python programming notes", &[]));
    vault.add_scanned("gamma.md".into(), note("/v/gamma.md", "gamma", "See [[alpha]] for Rust details", &[]));
    assert_eq!(vault.note_count(), 3);

    let by_tag = vault.search_by_tag("RUST");
    assert_eq!(by_tag.len(), 1);
    assert_eq!(by_tag[0].title, "alpha");
}

#[test]
fn wikilink_resolution() {
    let mut vault = VaultIndex::new();
    vault.add_scanned("My Note.md".into(), note("/v/My Note.md", "My Note", "Content here", &[]));
    assert_eq!(vault.resolve_wikilink("My Note").as_deref(), Some("My Note.md"));
    assert!(vault.resolve_wikilink("my note").is_some());
    assert!(vault.resolve_wikilink("  My Note#Heading|alias").is_some());
    assert!(vault.resolve_wikilink("Nonexistent").is_none());
}

#[test]
fn backlink_index_built() {
    let mut vault = VaultIndex::new();
    vault.add_scanned("target.md".into(), note("/v/target.md", "target", "I am the target", &[]));
    vault.add_scanned("source.md".into(), note("/v/source.md", "source", "Linking to [[Target]] here", &[]));
    let backlinks = vault.backlinks_for("target.md");
    assert_eq!(backlinks.len(), 1);
    assert_eq!(backlinks[0].title, "source");
}

#[test]
fn all_tags_deduped() {
    let mut vault = VaultIndex::new();
    vault.add_scanned("a.md".into(), note("/v/a.md", "a", "Content", &["rust", "coding"]));
    vault.add_scanned("b.md".into(), note("/v/b.md", "b", "More content", &["rust", "docs"]));
    let tags = vault.all_tags();
    assert_eq!(tags, vec!["coding", "docs", "rust"]);
}

#[test]
fn scan_prefers_the_shortest_path_for_a_title() {
    let mut vault = VaultIndex::new();
    vault.add_scanned("deep/dir/Note.md".into(), note("/v/deep/dir/Note.md", "Note", "a", &[]));
    vault.add_scanned("Note.md".into(), note("/v/Note.md", "Note", "b", &[]));
    vault.add_scanned("x/Note.md".into(), note("/v/x/Note.md", "Note", "c", &[]));
    assert_eq!(vault.resolve_wikilink("note").as_deref(), Some("Note.md"));
    vault.add_written("y/Note.md".into(), note("/v/y/Note.md", "Note", "d", &[]));
    assert_eq!(vault.resolve_wikilink("note").as_deref(), Some("y/Note.md"));
    assert_eq!(vault.note_count(), 4);
}

#[test]
fn resolve_by_path_with_folder() {
    let mut vault = VaultIndex::new();
    vault.add_scanned("dir/file".into(), note("/v/dir/file", "other", "", &[]));
    assert_eq!(vault.resolve_wikilink("Dir/File").as_deref(), Some("dir/file"));
}

#[test]
fn notes_in_folder_and_lookup() {
    let mut vault = VaultIndex::default();
    vault.add_scanned("ironclad/a.md".into(), note("/v/ironclad/a.md", "a", "", &[]));
    vault.add_scanned("other/b.md".into(), note("/v/other/b.md", "b", "", &[]));
    let inside = vault.notes_in_folder("ironclad");
    assert_eq!(inside.len(), 1);
    assert_eq!(inside[0].0, "ironclad/a.md");
    assert!(vault.get_note("other/b.md").is_some());
    assert!(vault.get_note("missing.md").is_none());
    assert_eq!(vault.all_notes().len(), 2);
    vault.clear();
    assert_eq!(vault.note_count(), 0);
}

#[test]
fn path_to_title_takes_file_stem() {
    assert_eq!(path_to_title("projects/report.md"), "report");
    assert_eq!(path_to_title("plain"), "plain");
    assert_eq!(path_to_title("a/b.c.md"), "b.c");
}

#[test]
fn tag_and_folder_search() {
    let mut vault = VaultIndex::new();
    vault.add_scanned("notes/a.md".into(), note("/v/notes/a.md", "a", "x", &["Rust"]));
    vault.add_scanned("notes/b.md".into(), note("/v/notes/b.md", "b", "y", &["python"]));
    vault.add_scanned("other/c.md".into(), note("/v/other/c.md", "c", "z", &["rust"]));
    vault.add_scanned("notes/d.md".into(), note("/v/notes/d.md", "d", "w", &[]));

    let rust: Vec<String> = vault
        .notes_tagged_in_folder(&["rust".to_string()], "", 10)
        .into_iter()
        .map(|(k, _)| k)
        .collect();
    assert_eq!(rust, vec!["notes/a.md".to_string(), "other/c.md".to_string()]);

    let in_notes: Vec<String> = vault
        .notes_tagged_in_folder(&["RUST".to_string(), "python".to_string()], "notes/", 10)
        .into_iter()
        .map(|(k, _)| k)
        .collect();
    assert_eq!(in_notes, vec!["notes/a.md".to_string(), "notes/b.md".to_string()]);

    let folder_only = vault.notes_tagged_in_folder(&[], "notes/", 2);
    assert_eq!(folder_only.len(), 2);
    assert_eq!(folder_only[0].0, "notes/a.md");
    assert_eq!(folder_only[1].0, "notes/b.md");

    assert!(vault.notes_tagged_in_folder(&["go".to_string()], "", 10).is_empty());
}

#[test]
fn search_needs_query_tags_or_folder() {
    assert!(!search_request_ok(false, 0, false));
    assert!(search_request_ok(true, 0, false));
    assert!(search_request_ok(false, 1, false));
    assert!(search_request_ok(false, 0, true));
}

#[test]
fn content_hits_filtered_by_folder_tags_and_limit() {
    let hits = vec![
        ("notes/a.md".to_string(), vec!["Rust".to_string()]),
        ("other/b.md".to_string(), vec!["rust".to_string()]),
        ("notes/c.md".to_string(), vec!["go".to_string()]),
        ("notes/d.md".to_string(), vec!["RUST".to_string()]),
    ];
    assert_eq!(filter_search_hits(&hits, Some("notes/"), &["rust".to_string()], 10), vec![0, 3]);
    assert_eq!(filter_search_hits(&hits, None, &[], 2), vec![0, 1]);
    assert_eq!(filter_search_hits(&hits, Some("notes/"), &[], 10), vec![0, 2, 3]);
    assert!(filter_search_hits(&hits, None, &["python".to_string()], 10).is_empty());
}

#[test]
fn parse_wikilink_gives_back_every_written_part() {
    let link = parse_wikilink("[[Note#Section|Shown text]]");
    assert_eq!(link.target, "Note");
    assert_eq!(link.heading.as_deref(), Some("Section"));
    assert_eq!(link.display.as_deref(), Some("Shown text"));
    let bare = parse_wikilink("[[]]");
    assert_eq!(bare.target, "");
    assert!(bare.heading.is_none());
    assert!(bare.display.is_none());
}
