//! Document ingestion: which files can be ingested, and how a file's text
//! becomes stored chunks.

use std::path::Path;
use vstd::prelude::*;

use crate::obsidian::{excerpt, truncate};
use crate::retrieval::{chunk_is, chunk_layout, chunk_text, Chunk, ChunkConfig};
use crate::text::{
    decimal, decimal_chars, from_chars, lowercase, push_str, str_eq, to_chars, to_lowercase, trim,
    trim_chars, utf8,
};

verus! {

broadcast use vstd::string::group_string_axioms;

#[derive(Debug, Clone, Copy, PartialEq, Eq, Structural)]
pub enum FileType {
    Markdown,
    PlainText,
    RustSource,
    PythonSource,
    JavaScriptSource,
    TypeScriptSource,
    Pdf,
}

/// The file type a (lowercased) extension denotes.
pub open spec fn file_type_for(ext: Seq<char>) -> Option<FileType> {
    if ext == "md"@ || ext == "markdown"@ {
        Some(FileType::Markdown)
    } else if ext == "txt"@ || ext == "text"@ {
        Some(FileType::PlainText)
    } else if ext == "rs"@ {
        Some(FileType::RustSource)
    } else if ext == "py"@ {
        Some(FileType::PythonSource)
    } else if ext == "js"@ || ext == "jsx"@ || ext == "mjs"@ {
        Some(FileType::JavaScriptSource)
    } else if ext == "ts"@ || ext == "tsx"@ || ext == "mts"@ {
        Some(FileType::TypeScriptSource)
    } else if ext == "pdf"@ {
        Some(FileType::Pdf)
    } else {
        None
    }
}

/// The lowercase extensions that denote each file type.
pub open spec fn extensions_of(t: FileType) -> Seq<Seq<char>> {
    match t {
        FileType::Markdown => seq!["md"@, "markdown"@],
        FileType::PlainText => seq!["txt"@, "text"@],
        FileType::RustSource => seq!["rs"@],
        FileType::PythonSource => seq!["py"@],
        FileType::JavaScriptSource => seq!["js"@, "jsx"@, "mjs"@],
        FileType::TypeScriptSource => seq!["ts"@, "tsx"@, "mts"@],
        FileType::Pdf => seq!["pdf"@],
    }
}

/// An extension denotes a file type exactly when it is one of that type's
/// extensions: "md" and "markdown" are Markdown, "txt" and "text" plain
/// text, "rs" Rust, "py" Python, "js", "jsx" and "mjs" JavaScript, "ts",
/// "tsx" and "mts" TypeScript, "pdf" PDF; any other extension has no type.
/// Of the extensions a default directory source reads, all but the
/// configuration formats ("toml", "yaml", "json") can be ingested.
pub proof fn lemma_file_type_table(e: Seq<char>, t: FileType)
    ensures
        file_type_for(e) == Some(t) <==> extensions_of(t).contains(e),
        file_type_for(e) is None <==> forall|u: FileType| !(#[trigger] extensions_of(u)).contains(e),
        crate::knowledge::default_extensions().contains(e) && e != "toml"@ && e != "yaml"@ && e
            != "json"@ ==> file_type_for(e) is Some,
{
    reveal_strlit("md");
    reveal_strlit("markdown");
    reveal_strlit("txt");
    reveal_strlit("text");
    reveal_strlit("rs");
    reveal_strlit("py");
    reveal_strlit("js");
    reveal_strlit("jsx");
    reveal_strlit("mjs");
    reveal_strlit("ts");
    reveal_strlit("tsx");
    reveal_strlit("mts");
    reveal_strlit("pdf");
    reveal_strlit("toml");
    reveal_strlit("yaml");
    reveal_strlit("json");
    assert forall|u: FileType| #[trigger] extensions_of(u).contains(e) implies file_type_for(e) == Some(u) by {
        let es = extensions_of(u);
        let i = choose|i: int| 0 <= i < es.len() && es[i] == e;
        match u {
            FileType::Markdown => {
                if i == 0 { assert(e == "md"@); assert(e.len() == 2 && e[0] == 'm' && e[1] == 'd'); } else { assert(e == "markdown"@); assert(e.len() == 8 && e[0] == 'm' && e[1] == 'a' && e[2] == 'r' && e[3] == 'k' && e[4] == 'd' && e[5] == 'o' && e[6] == 'w' && e[7] == 'n'); }
            },
            FileType::PlainText => {
                if i == 0 { assert(e == "txt"@); assert(e.len() == 3 && e[0] == 't' && e[1] == 'x' && e[2] == 't'); } else { assert(e == "text"@); assert(e.len() == 4 && e[0] == 't' && e[1] == 'e' && e[2] == 'x' && e[3] == 't'); }
            },
            FileType::RustSource => {
                assert(e == "rs"@); assert(e.len() == 2 && e[0] == 'r' && e[1] == 's');
            },
            FileType::PythonSource => {
                assert(e == "py"@); assert(e.len() == 2 && e[0] == 'p' && e[1] == 'y');
            },
            FileType::JavaScriptSource => {
                if i == 0 { assert(e == "js"@); assert(e.len() == 2 && e[0] == 'j' && e[1] == 's'); } else if i == 1 { assert(e == "jsx"@); assert(e.len() == 3 && e[0] == 'j' && e[1] == 's' && e[2] == 'x'); } else { assert(e == "mjs"@); assert(e.len() == 3 && e[0] == 'm' && e[1] == 'j' && e[2] == 's'); }
            },
            FileType::TypeScriptSource => {
                if i == 0 { assert(e == "ts"@); assert(e.len() == 2 && e[0] == 't' && e[1] == 's'); } else if i == 1 { assert(e == "tsx"@); assert(e.len() == 3 && e[0] == 't' && e[1] == 's' && e[2] == 'x'); } else { assert(e == "mts"@); assert(e.len() == 3 && e[0] == 'm' && e[1] == 't' && e[2] == 's'); }
            },
            FileType::Pdf => {
                assert(e == "pdf"@); assert(e.len() == 3 && e[0] == 'p' && e[1] == 'd' && e[2] == 'f');
            },
        }
    }
    if let Some(u) = file_type_for(e) {
        let es = extensions_of(u);
        let i: int = if e == es[0] { 0 } else if es.len() > 1 && e == es[1] { 1 } else { 2 };
        assert(0 <= i < es.len() && es[i] == e);
        assert(extensions_of(u).contains(e));
    }
    if crate::knowledge::default_extensions().contains(e) {
        let d = crate::knowledge::default_extensions();
        let i = choose|i: int| 0 <= i < d.len() && d[i] == e;
        assert(d[i] == e);
    }
}

/// `Path::extension` of a path given as text, taken as UTF-8 (`OsStr::to_str`):
/// the part of the last component after its last dot, when there is one.
pub uninterp spec fn extension_of(path: Seq<char>) -> Option<Seq<char>>;

/// Calls `Path::extension` on the path text and takes the extension as UTF-8
/// text; the result is the named extension of the argument.
#[verifier::external_body]
pub(crate) fn path_extension(path: &str) -> (r: Option<String>)
    ensures
        match r {
            Some(e) => extension_of(path@) == Some(e@),
            None => extension_of(path@) is None,
        },
{
    Path::new(path).extension().and_then(|e| e.to_str()).map(|e| e.to_owned())
}

pub open spec fn is_code_type(t: FileType) -> bool {
    t == FileType::RustSource || t == FileType::PythonSource || t == FileType::JavaScriptSource
        || t == FileType::TypeScriptSource
}

pub open spec fn type_label(t: FileType) -> Seq<char> {
    match t {
        FileType::Markdown => "markdown"@,
        FileType::PlainText => "plain_text"@,
        FileType::RustSource => "rust"@,
        FileType::PythonSource => "python"@,
        FileType::JavaScriptSource => "javascript"@,
        FileType::TypeScriptSource => "typescript"@,
        FileType::Pdf => "pdf"@,
    }
}

impl FileType {
    /// The file type of an extension, matched case-insensitively.
    pub fn from_extension(ext: &str) -> (r: Option<FileType>)
        ensures
            r == file_type_for(lowercase(ext@)),
    {
        let lower = to_lowercase(ext);
        let e = lower.as_str();
        if str_eq(e, "md") || str_eq(e, "markdown") {
            Some(FileType::Markdown)
        } else if str_eq(e, "txt") || str_eq(e, "text") {
            Some(FileType::PlainText)
        } else if str_eq(e, "rs") {
            Some(FileType::RustSource)
        } else if str_eq(e, "py") {
            Some(FileType::PythonSource)
        } else if str_eq(e, "js") || str_eq(e, "jsx") || str_eq(e, "mjs") {
            Some(FileType::JavaScriptSource)
        } else if str_eq(e, "ts") || str_eq(e, "tsx") || str_eq(e, "mts") {
            Some(FileType::TypeScriptSource)
        } else if str_eq(e, "pdf") {
            Some(FileType::Pdf)
        } else {
            None
        }
    }

    /// Detect file type from the extension of a path (given as text).
    /// Returns `None` for unsupported types and paths without extension.
    pub fn from_path(path: &str) -> (r: Option<FileType>)
        ensures
            r == match extension_of(path@) {
                Some(e) => file_type_for(lowercase(e)),
                None => None,
            },
    {
        match path_extension(path) {
            Some(ext) => FileType::from_extension(ext.as_str()),
            None => None,
        }
    }

    pub fn is_code(&self) -> (r: bool)
        ensures
            r == is_code_type(*self),
    {
        match self {
            FileType::RustSource | FileType::PythonSource | FileType::JavaScriptSource
            | FileType::TypeScriptSource => true,
            _ => false,
        }
    }

    pub fn label(&self) -> (r: &'static str)
        ensures
            r@ == type_label(*self),
    {
        match self {
            FileType::Markdown => "markdown",
            FileType::PlainText => "plain_text",
            FileType::RustSource => "rust",
            FileType::PythonSource => "python",
            FileType::JavaScriptSource => "javascript",
            FileType::TypeScriptSource => "typescript",
            FileType::Pdf => "pdf",
        }
    }
}

/// Maximum file size we'll ingest (10 MB). Prevents OOM on giant files.
pub const MAX_FILE_SIZE: u64 = 10 * 1024 * 1024;

#[derive(Debug)]
pub struct IngestResult {
    pub file_path: String,
    pub file_type: FileType,
    pub chunks_stored: usize,
    pub total_chars: usize,
    pub source_id: String,
}

/// Why a file cannot be ingested.
#[derive(Debug, Clone, Copy, PartialEq, Eq, Structural)]
pub enum IngestRefusal {
    /// The path is not a regular file.
    NotAFile,
    /// The file exceeds `MAX_FILE_SIZE`; its size.
    TooLarge(u64),
    /// The extension is not supported.
    Unsupported,
    /// The file holds no text but whitespace.
    NoText,
}

/// Whether a file may be read for ingestion: it must be a regular file of at
/// most `MAX_FILE_SIZE` bytes whose type is supported.
pub fn check_ingestable(is_file: bool, size: u64, file_type: Option<FileType>) -> (r: Result<
    FileType,
    IngestRefusal,
>)
    ensures
        !is_file ==> r == Err::<FileType, IngestRefusal>(IngestRefusal::NotAFile),
        is_file && size > MAX_FILE_SIZE ==> r == Err::<FileType, IngestRefusal>(
            IngestRefusal::TooLarge(size),
        ),
        is_file && size <= MAX_FILE_SIZE ==> match file_type {
            Some(t) => r == Ok::<FileType, IngestRefusal>(t),
            None => r == Err::<FileType, IngestRefusal>(IngestRefusal::Unsupported),
        },
{
    if !is_file {
        return Err(IngestRefusal::NotAFile);
    }
    if size > MAX_FILE_SIZE {
        return Err(IngestRefusal::TooLarge(size));
    }
    match file_type {
        Some(t) => Ok(t),
        None => Err(IngestRefusal::Unsupported),
    }
}

/// One chunk as it is stored: its ids, its text and the preview kept with
/// its embedding entry.
#[derive(Debug)]
pub struct ChunkRecord {
    pub index: usize,
    pub chunk_id: String,
    pub key: String,
    pub text: String,
    pub preview: String,
}

/// What ingesting a file stores.
#[derive(Debug)]
pub struct IngestPlan {
    pub file_type: FileType,
    pub category: String,
    pub source_id: String,
    pub total_chars: usize,
    pub chunks: Vec<ChunkRecord>,
}

/// A path made into an identifier part: '/' and '\' become ':'.
pub open spec fn path_id(p: Seq<char>) -> Seq<char> {
    p.map_values(|c: char| if c == '/' || c == '\\' { ':' } else { c })
}

pub open spec fn ingest_source_id(canonical_path: Seq<char>) -> Seq<char> {
    "ingest:"@ + path_id(canonical_path)
}

pub open spec fn ingest_category(t: FileType) -> Seq<char> {
    if is_code_type(t) {
        "ingested_code"@
    } else {
        "ingested_document"@
    }
}

/// The record stored for the `i`-th chunk, whose text is `text`.
pub open spec fn chunk_record_ok(
    r: ChunkRecord,
    i: int,
    text: Seq<char>,
    source_id: Seq<char>,
    file_name: Seq<char>,
) -> bool {
    &&& r.index == i
    &&& r.chunk_id@ == source_id + ":chunk:"@ + decimal(i as nat)
    &&& r.key@ == file_name + ":"@ + decimal(i as nat)
    &&& r.text@ == text
    &&& r.preview@ == excerpt(text, 200)
}

fn path_id_chars(p: &str) -> (r: Vec<char>)
    ensures
        r@ == path_id(p@),
{
    let chars = to_chars(p);
    let mut out: Vec<char> = Vec::new();
    let mut i: usize = 0;
    while i < chars.len()
        invariant
            0 <= i <= chars@.len(),
            chars@ == p@,
            out@ == path_id(chars@.take(i as int)),
        decreases chars@.len() - i,
    {
        let c = chars[i];
        out.push(if c == '/' || c == '\\' { ':' } else { c });
        assert(path_id(chars@.take(i + 1)) =~= path_id(chars@.take(i as int)).push(
            if c == '/' || c == '\\' { ':' } else { c },
        ));
        i = i + 1;
    }
    assert(chars@.take(chars@.len() as int) =~= chars@);
    out
}

/// `plan` stores the chunks of `text` under the default configuration.
pub open spec fn plan_ok(
    plan: IngestPlan,
    file_name: Seq<char>,
    canonical_path: Seq<char>,
    file_type: FileType,
    text: Seq<char>,
) -> bool {
    let layout = chunk_layout(utf8(text), 512, 64);
    &&& plan.file_type == file_type
    &&& plan.category@ == ingest_category(file_type)
    &&& plan.source_id@ == ingest_source_id(canonical_path)
    &&& plan.total_chars == utf8(text).len()
    &&& plan.chunks@.len() == layout.len()
    &&& forall|i: int|
        0 <= i < layout.len() ==> #[trigger] utf8(plan.chunks@[i].text@) == utf8(text).subrange(
            layout[i].0,
            layout[i].1,
        ) && chunk_record_ok(plan.chunks@[i], i, plan.chunks@[i].text@, plan.source_id@, file_name)
}

/// What to store for a file of the given type and text: nothing when the
/// text is blank; otherwise its chunks under the default configuration,
/// named after the file's canonical path and file name.
pub fn plan_ingest(file_name: &str, canonical_path: &str, file_type: FileType, text: &str) -> (r:
    Result<IngestPlan, IngestRefusal>)
    ensures
        trim(text@).len() == 0 ==> r == Err::<IngestPlan, IngestRefusal>(IngestRefusal::NoText),
        trim(text@).len() > 0 ==> (r matches Ok(plan) && plan_ok(
            plan,
            file_name@,
            canonical_path@,
            file_type,
            text@,
        )),
{
    let chars = to_chars(text);
    let trimmed = trim_chars(chars.as_slice());
    if trimmed.len() == 0 {
        return Err(IngestRefusal::NoText);
    }
    let config = ChunkConfig::default();
    let chunks = chunk_text(text, &config);
    let mut source: Vec<char> = Vec::new();
    push_str(&mut source, "ingest:");
    let mut pid = path_id_chars(canonical_path);
    source.append(&mut pid);
    let source_id = from_chars(source.as_slice());
    let ghost layout = chunk_layout(utf8(text@), 512, 64);
    let mut records: Vec<ChunkRecord> = Vec::new();
    let mut i: usize = 0;
    while i < chunks.len()
        invariant
            0 <= i <= chunks@.len(),
            chunks@.len() == layout.len(),
            layout == chunk_layout(utf8(text@), 512, 64),
            forall|j: int|
                0 <= j < chunks@.len() ==> chunk_is(#[trigger] chunks@[j], j, layout[j], utf8(text@)),
            records@.len() == i,
            forall|j: int|
                0 <= j < i ==> #[trigger] utf8(records@[j].text@) == utf8(text@).subrange(
                    layout[j].0,
                    layout[j].1,
                ) && chunk_record_ok(records@[j], j, records@[j].text@, source_id@, file_name@),
        decreases chunks@.len() - i,
    {
        let c = &chunks[i];
        assert(chunk_is(chunks@[i as int], i as int, layout[i as int], utf8(text@)));
        let mut id: Vec<char> = Vec::new();
        push_str(&mut id, source_id.as_str());
        push_str(&mut id, ":chunk:");
        let mut n = decimal_chars(i);
        id.append(&mut n);
        let mut key: Vec<char> = Vec::new();
        push_str(&mut key, file_name);
        push_str(&mut key, ":");
        let mut n2 = decimal_chars(i);
        key.append(&mut n2);
        let preview = truncate(c.text.as_str(), 200);
        let record = ChunkRecord {
            index: i,
            chunk_id: from_chars(id.as_slice()),
            key: from_chars(key.as_slice()),
            text: c.text.clone(),
            preview,
        };
        records.push(record);
        i = i + 1;
    }
    let category = if file_type.is_code() {
        "ingested_code".to_owned()
    } else {
        "ingested_document".to_owned()
    };
    Ok(
        IngestPlan {
            file_type,
            category,
            source_id,
            total_chars: text.as_bytes().len(),
            chunks: records,
        },
    )
}

pub open spec fn ingest_description(file_name: Seq<char>, t: FileType, stored: nat) -> Seq<char> {
    "Ingested "@ + file_name + " ("@ + type_label(t) + ", "@ + decimal(stored) + " chunks)"@
}

/// How an ingested document is described where it is registered.
pub fn describe_ingest(file_name: &str, file_type: FileType, stored: usize) -> (r: String)
    ensures
        r@ == ingest_description(file_name@, file_type, stored as nat),
{
    let mut out: Vec<char> = Vec::new();
    push_str(&mut out, "Ingested ");
    push_str(&mut out, file_name);
    push_str(&mut out, " (");
    push_str(&mut out, file_type.label());
    push_str(&mut out, ", ");
    let mut n = decimal_chars(stored);
    out.append(&mut n);
    push_str(&mut out, " chunks)");
    from_chars(out.as_slice())
}

} // verus!
