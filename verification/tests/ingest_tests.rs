
use ironclad_agent::ingest::{
    check_ingestable, describe_ingest, plan_ingest, FileType, IngestRefusal, MAX_FILE_SIZE,
};

#[test]
fn file_type_detection() {
    assert_eq!(
        FileType::from_path("readme.md"),
        Some(FileType::Markdown)
    );
    assert_eq!(
        FileType::from_path("main.rs"),
        Some(FileType::RustSource)
    );
    assert_eq!(
        FileType::from_path("app.tsx"),
        Some(FileType::TypeScriptSource)
    );
    assert_eq!(
        FileType::from_path("doc.pdf"),
        Some(FileType::Pdf)
    );
    assert_eq!(FileType::from_path("image.png"), None);
    assert_eq!(FileType::from_path("archive.zip"), None);
}

#[test]
fn extension_matching_ignores_case() {
    assert_eq!(FileType::from_extension("MD"), Some(FileType::Markdown));
    assert_eq!(FileType::from_extension("Py"), Some(FileType::PythonSource));
    assert_eq!(FileType::from_extension("exe"), None);
}

#[test]
fn code_types_and_labels() {
    assert!(FileType::RustSource.is_code());
    assert!(!FileType::Markdown.is_code());
    assert_eq!(FileType::PlainText.label(), "plain_text");
    assert_eq!(FileType::TypeScriptSource.label(), "typescript");
}

#[test]
fn ingestable_checks_each_refusal() {
    assert_eq!(
        check_ingestable(false, 10, Some(FileType::Markdown)),
        Err(IngestRefusal::NotAFile)
    );
    assert_eq!(
        check_ingestable(true, MAX_FILE_SIZE + 1, Some(FileType::Markdown)),
        Err(IngestRefusal::TooLarge(MAX_FILE_SIZE + 1))
    );
    assert_eq!(check_ingestable(true, 10, None), Err(IngestRefusal::Unsupported));
    assert_eq!(
        check_ingestable(true, MAX_FILE_SIZE, Some(FileType::Pdf)),
        Ok(FileType::Pdf)
    );
}

#[test]
fn ingest_empty_text_is_refused() {
    let r = plan_ingest("empty.md", "/tmp/empty.md", FileType::Markdown, "   \n  ");
    assert!(matches!(r, Err(IngestRefusal::NoText)));
}

#[test]
fn ingest_plan_names_chunks_after_the_path() {
    let plan = plan_ingest(
        "notes.md",
        "/home/u/notes.md",
        FileType::Markdown,
        "# Title\n\nSome content here.",
    )
    .unwrap();
    assert_eq!(plan.source_id, "ingest::home:u:notes.md");
    assert_eq!(plan.category, "ingested_document");
    assert_eq!(plan.chunks.len(), 1);
    assert_eq!(plan.chunks[0].index, 0);
    assert_eq!(plan.chunks[0].chunk_id, "ingest::home:u:notes.md:chunk:0");
    assert_eq!(plan.chunks[0].key, "notes.md:0");
    assert_eq!(plan.total_chars, 27);
}

#[test]
fn ingest_plan_for_code_uses_code_category() {
    let plan = plan_ingest("main.rs", "/src/main.rs", FileType::RustSource, "fn main() {}").unwrap();
    assert_eq!(plan.category, "ingested_code");
}

#[test]
fn describe_ingest_text() {
    assert_eq!(
        describe_ingest("notes.md", FileType::Markdown, 3),
        "Ingested notes.md (markdown, 3 chunks)"
    );
}

#[test]
fn file_type_from_path_edges() {
    assert_eq!(FileType::from_path("docs/README.MD"), Some(FileType::Markdown));
    assert_eq!(FileType::from_path("notes/plain"), None);
    assert_eq!(FileType::from_path("dir.rs/file"), None);
    assert_eq!(FileType::from_path("src/lib.rs"), Some(FileType::RustSource));
}
