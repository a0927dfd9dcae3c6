use std::path::PathBuf;

use ironclad_agent::knowledge::{available_from, DirectorySource, GitSource};

#[test]
fn directory_source_not_available_for_missing_dir() {
    let source = DirectorySource::new("test", PathBuf::from("/nonexistent/path"));
    assert!(!source.is_available());
}

#[test]
fn git_source_not_repo() {
    let source = GitSource::new("test", PathBuf::from("/nonexistent/repo"));
    assert!(!source.is_git_repo());
    assert!(!source.is_available());
}

#[test]
fn directory_source_names_and_type() {
    let source = DirectorySource::new("docs", PathBuf::from("/nonexistent"));
    assert_eq!(source.name(), "docs");
    assert_eq!(source.source_type(), "directory");
    let git = GitSource::new("repo", PathBuf::from("/nonexistent"));
    assert_eq!(git.name(), "repo");
    assert_eq!(git.source_type(), "git");
}

#[test]
fn directory_source_default_extensions() {
    let source = DirectorySource::new("docs", PathBuf::from("/nonexistent"));
    assert!(source.has_extension("md"));
    assert!(source.has_extension("toml"));
    assert!(!source.has_extension("png"));
    assert!(source.is_supported_extension("a/b/readme.md"));
    assert!(!source.is_supported_extension("a/b/image.png"));
    assert!(!source.is_supported_extension("Makefile"));
}

#[test]
fn directory_source_custom_extensions() {
    let source = DirectorySource::new("docs", PathBuf::from("/nonexistent"))
        .with_extensions(vec!["adoc".to_string()]);
    assert!(source.has_extension("adoc"));
    assert!(!source.has_extension("md"));
}

#[test]
fn git_marker_is_dot_git_under_the_repository() {
    let git = GitSource::new("repo", PathBuf::from("/srv/repo"));
    assert_eq!(git.git_marker(), "/srv/repo/.git");
}

#[test]
fn availability_needs_an_existing_directory() {
    assert!(available_from(true, true));
    assert!(!available_from(true, false));
    assert!(!available_from(false, false));
}
