//! Knowledge sources the agent can query: local directories and Git
//! repositories.

use std::path::PathBuf;
use vstd::prelude::*;

use crate::ingest::{extension_of, path_extension};
use crate::text::str_eq;

verus! {

broadcast use vstd::string::group_string_axioms;

#[verifier::external_type_specification]
#[verifier::external_body]
pub struct ExPathBuf(PathBuf);

/// Calls `Path::exists`. The answer depends on the file system at the time
/// of the call, so nothing is stated of it.
#[verifier::external_body]
fn path_exists(p: &PathBuf) -> (r: bool) {
    p.exists()
}

/// Calls `Path::is_dir`. The answer depends on the file system at the time
/// of the call, so nothing is stated of it.
#[verifier::external_body]
fn path_is_dir(p: &PathBuf) -> (r: bool) {
    p.is_dir()
}

/// Calls `Path::to_string_lossy` and owns the text: the path as text, with
/// bytes that are not UTF-8 replaced. A path is opaque here, so nothing is
/// stated of the text.
#[verifier::external_body]
fn path_text(p: &PathBuf) -> (r: String) {
    p.to_string_lossy().into_owned()
}

/// `Path::join` of two paths given as text: `part` itself when it is
/// absolute, else `part` appended to `base` after a separator.
pub uninterp spec fn joined(base: Seq<char>, part: Seq<char>) -> Seq<char>;

/// Calls `Path::join` on two paths given as text and takes the result as
/// text (joining UTF-8 texts gives UTF-8, so nothing is replaced); the
/// result is the named join of the arguments.
#[verifier::external_body]
fn join_text(base: &str, part: &str) -> (r: String)
    ensures
        r@ == joined(base@, part@),
{
    std::path::Path::new(base).join(part).to_string_lossy().into_owned()
}

/// Calls `Path::exists` on a path given as text. The answer depends on the
/// file system at the time of the call, so nothing is stated of it.
#[verifier::external_body]
fn text_path_exists(p: &str) -> (r: bool) {
    std::path::Path::new(p).exists()
}

/// A directory is available when it exists and is a directory.
pub fn available_from(exists: bool, is_dir: bool) -> (r: bool)
    ensures
        r == (exists && is_dir),
{
    exists && is_dir
}

/// Configuration for a knowledge source.
#[derive(Debug)]
pub struct KnowledgeSourceConfig {
    pub name: String,
    pub source_type: String,
    pub path: Option<PathBuf>,
    pub url: Option<String>,
    pub max_chunks: usize,
}

/// A knowledge source backed by a local directory of files.
pub struct DirectorySource {
    name: String,
    root: PathBuf,
    extensions: Vec<String>,
}

/// The extensions a directory source reads unless told otherwise.
pub open spec fn default_extensions() -> Seq<Seq<char>> {
    seq!["md"@, "txt"@, "rs"@, "py"@, "js"@, "ts"@, "toml"@, "yaml"@, "json"@]
}

pub open spec fn string_views(v: Seq<String>) -> Seq<Seq<char>> {
    v.map_values(|s: String| s@)
}

impl DirectorySource {
    pub closed spec fn source_name(&self) -> Seq<char> {
        self.name@
    }

    /// The extensions (without the dot) this source reads.
    pub closed spec fn extension_list(&self) -> Seq<Seq<char>> {
        string_views(self.extensions@)
    }

    pub fn new(name: &str, root: PathBuf) -> (r: Self)
        ensures
            r.source_name() == name@,
            r.extension_list() == default_extensions(),
    {
        let extensions = vec![
            "md".to_owned(),
            "txt".to_owned(),
            "rs".to_owned(),
            "py".to_owned(),
            "js".to_owned(),
            "ts".to_owned(),
            "toml".to_owned(),
            "yaml".to_owned(),
            "json".to_owned(),
        ];
        let r = DirectorySource { name: name.to_owned(), root, extensions };
        assert(r.extension_list() =~= default_extensions());
        r
    }

    pub fn with_extensions(self, exts: Vec<String>) -> (r: Self)
        ensures
            r.source_name() == self.source_name(),
            r.extension_list() == string_views(exts@),
    {
        DirectorySource { name: self.name, root: self.root, extensions: exts }
    }

    pub fn name(&self) -> (r: &str)
        ensures
            r@ == self.source_name(),
    {
        self.name.as_str()
    }

    pub closed spec fn root_path(&self) -> PathBuf {
        self.root
    }

    /// The directory this source reads.
    pub fn root(&self) -> (r: &PathBuf)
        ensures
            *r == self.root_path(),
    {
        &self.root
    }

    pub fn source_type(&self) -> (r: &'static str)
        ensures
            r@ == "directory"@,
    {
        "directory"
    }

    /// Whether the extension of a file's path (given as text) is one this
    /// source reads (compared exactly); a path without extension is not.
    pub fn is_supported_extension(&self, path: &str) -> (r: bool)
        ensures
            r == match extension_of(path@) {
                Some(e) => self.extension_list().contains(e),
                None => false,
            },
    {
        match path_extension(path) {
            Some(ext) => self.has_extension(ext.as_str()),
            None => false,
        }
    }

    /// Whether `ext` is one of this source's extensions.
    pub fn has_extension(&self, ext: &str) -> (r: bool)
        ensures
            r == self.extension_list().contains(ext@),
    {
        let ghost es = self.extension_list();
        let mut i: usize = 0;
        while i < self.extensions.len()
            invariant
                0 <= i <= self.extensions@.len(),
                es == string_views(self.extensions@),
                forall|j: int| 0 <= j < i ==> es[j] != ext@,
            decreases self.extensions@.len() - i,
        {
            if str_eq(self.extensions[i].as_str(), ext) {
                assert(es[i as int] == ext@);
                return true;
            }
            i = i + 1;
        }
        false
    }

    /// Whether the root currently exists as a directory.
    pub fn is_available(&self) -> bool {
        let exists = path_exists(&self.root);
        let is_dir = if exists {
            path_is_dir(&self.root)
        } else {
            false
        };
        available_from(exists, is_dir)
    }
}

/// A knowledge source backed by a Git repository.
pub struct GitSource {
    name: String,
    /// The repository path as text.
    repo_path: String,
    inner: DirectorySource,
}

impl GitSource {
    pub closed spec fn source_name(&self) -> Seq<char> {
        self.name@
    }

    /// The directory source that serves its queries.
    pub closed spec fn directory(&self) -> DirectorySource {
        self.inner
    }

    /// The repository path, as text.
    pub closed spec fn repo(&self) -> Seq<char> {
        self.repo_path@
    }

    pub fn new(name: &str, repo_path: PathBuf) -> (r: Self)
        ensures
            r.source_name() == name@,
            r.directory().source_name() == name@,
            r.directory().extension_list() == default_extensions(),
    {
        let text = path_text(&repo_path);
        let inner = DirectorySource::new(name, repo_path);
        GitSource { name: name.to_owned(), repo_path: text, inner }
    }

    pub fn name(&self) -> (r: &str)
        ensures
            r@ == self.source_name(),
    {
        self.name.as_str()
    }

    /// The directory source that serves its queries.
    pub fn inner(&self) -> (r: &DirectorySource)
        ensures
            *r == self.directory(),
    {
        &self.inner
    }

    pub fn source_type(&self) -> (r: &'static str)
        ensures
            r@ == "git"@,
    {
        "git"
    }

    /// The path whose existence marks a Git repository: `.git` joined to
    /// the repository path.
    pub fn git_marker(&self) -> (r: String)
        ensures
            r@ == joined(self.repo(), ".git"@),
    {
        join_text(self.repo_path.as_str(), ".git")
    }

    /// Check if the path currently holds a `.git` entry: whether the file
    /// system holds `git_marker()` at the time of the call.
    pub fn is_git_repo(&self) -> bool {
        let marker = self.git_marker();
        text_path_exists(marker.as_str())
    }

    pub fn is_available(&self) -> bool {
        self.is_git_repo()
    }
}

} // verus!
