//! Agent manifests: the personality of a specialist agent, manifest
//! validation and change detection by content hash.

use std::path::PathBuf;
use vstd::prelude::*;

use crate::obsidian::{key_index, lemma_key_index, with_entry};
use crate::skills::{content_digest, content_hash};
use crate::text::{contains_chars, str_eq, to_chars, utf8};

verus! {

broadcast use vstd::string::group_string_axioms;

/// Personality fields for a specialist agent.
#[derive(Debug, Clone)]
pub struct PersonalitySpec {
    pub role: String,
    pub style: String,
    pub directives: Vec<String>,
}

impl Default for PersonalitySpec {
    fn default() -> (r: Self)
        ensures
            r.role@.len() == 0,
            r.style@.len() == 0,
            r.directives@.len() == 0,
    {
        PersonalitySpec { role: String::new(), style: String::new(), directives: Vec::new() }
    }
}

/// Why a manifest is refused.
#[derive(Debug, Clone, Copy, PartialEq, Eq, Structural)]
pub enum ManifestError {
    EmptyId,
    EmptyName,
    /// The id holds a space or a '/'.
    InvalidId,
}

/// A manifest is valid when its id and name are non-empty and its id holds
/// neither a space nor a '/'.
pub open spec fn manifest_check(id: Seq<char>, name: Seq<char>) -> Result<(), ManifestError> {
    if id.len() == 0 {
        Err(ManifestError::EmptyId)
    } else if name.len() == 0 {
        Err(ManifestError::EmptyName)
    } else if id.contains(' ') || id.contains('/') {
        Err(ManifestError::InvalidId)
    } else {
        Ok(())
    }
}

/// Validate a manifest's id and name.
pub fn validate_manifest(id: &str, name: &str) -> (r: Result<(), ManifestError>)
    ensures
        r == manifest_check(id@, name@),
{
    let id_chars = to_chars(id);
    let name_chars = to_chars(name);
    if id_chars.len() == 0 {
        return Err(ManifestError::EmptyId);
    }
    if name_chars.len() == 0 {
        return Err(ManifestError::EmptyName);
    }
    let mut i: usize = 0;
    while i < id_chars.len()
        invariant
            0 <= i <= id_chars@.len(),
            id_chars@ == id@,
            name_chars@ == name@,
            id@.len() > 0,
            name@.len() > 0,
            forall|j: int| 0 <= j < i ==> id_chars@[j] != ' ' && id_chars@[j] != '/',
        decreases id_chars@.len() - i,
    {
        if id_chars[i] == ' ' || id_chars[i] == '/' {
            assert(id@[i as int] == id_chars@[i as int]);
            assert(id@.contains(' ') || id@.contains('/'));
            return Err(ManifestError::InvalidId);
        }
        i = i + 1;
    }
    assert(!id@.contains(' ') && !id@.contains('/'));
    Ok(())
}

/// The content hash a manifest file is tracked by.
pub fn compute_hash(content: &str) -> (r: String)
    ensures
        r@ == content_digest(utf8(content@)),
{
    content_hash(content.as_bytes())
}

/// A file must be (re)loaded when no manifest was loaded from its path or
/// the one loaded has another content hash.
pub open spec fn reload_needed(loaded_hash: Option<Seq<char>>, hash: Seq<char>) -> bool {
    match loaded_hash {
        Some(h) => h != hash,
        None => true,
    }
}

pub fn needs_reload(loaded_hash: Option<&str>, hash: &str) -> (r: bool)
    ensures
        r == reload_needed(
            match loaded_hash {
                Some(h) => Some(h@),
                None => None,
            },
            hash@,
        ),
{
    match loaded_hash {
        Some(h) => !crate::text::str_eq(h, hash),
        None => true,
    }
}

/// A declarative agent manifest, as read from a TOML file.
#[derive(Debug)]
pub struct AgentManifest {
    pub id: String,
    pub name: String,
    pub description: String,
    pub personality: PersonalitySpec,
    pub capabilities: Vec<String>,
    /// The model tier's name ("T1" to "T4"), when given.
    pub model_tier: Option<String>,
    pub tool_whitelist: Vec<String>,
    pub memory_budget_mb: Option<u64>,
    pub cron: Option<String>,
    pub max_concurrent_sessions: Option<usize>,
}

/// A loaded manifest with the file it came from and that file's content
/// hash, for hot-reload detection.
#[derive(Debug)]
pub struct LoadedManifest {
    pub manifest: AgentManifest,
    pub path: String,
    pub content_hash: String,
}

pub type ManifestEntries = Seq<(Seq<char>, LoadedManifest)>;

/// No id is loaded twice.
pub open spec fn ids_distinct(es: ManifestEntries) -> bool {
    forall|i: int, j: int| 0 <= i < j < es.len() ==> (#[trigger] es[i]).0 != (#[trigger] es[j]).0
}

/// The index of the first manifest loaded from the path, or -1.
pub open spec fn path_index(es: ManifestEntries, path: Seq<char>) -> int
    decreases es.len(),
{
    if es.len() == 0 {
        -1
    } else if es[0].1.path@ == path {
        0
    } else if path_index(es.drop_first(), path) < 0 {
        -1
    } else {
        1 + path_index(es.drop_first(), path)
    }
}

proof fn lemma_path_index(es: ManifestEntries, path: Seq<char>, i: int)
    requires
        0 <= i <= es.len(),
        forall|j: int| 0 <= j < i ==> (#[trigger] es[j]).1.path@ != path,
        i == es.len() || es[i].1.path@ == path,
    ensures
        path_index(es, path) == if i == es.len() {
            -1
        } else {
            i
        },
    decreases i,
{
    if i > 0 {
        assert forall|j: int| 0 <= j < i - 1 implies (#[trigger] es.drop_first()[j]).1.path@ != path by {
            assert(es.drop_first()[j] == es[j + 1]);
        }
        if i < es.len() {
            assert(es.drop_first()[i - 1] == es[i]);
        }
        lemma_path_index(es.drop_first(), path, i - 1);
    }
}

proof fn lemma_key_absent(es: ManifestEntries, key: Seq<char>)
    requires
        key_index(es, key) < 0,
    ensures
        forall|j: int| 0 <= j < es.len() ==> (#[trigger] es[j]).0 != key,
    decreases es.len(),
{
    if es.len() > 0 {
        lemma_key_absent(es.drop_first(), key);
        assert forall|j: int| 0 <= j < es.len() implies (#[trigger] es[j]).0 != key by {
            if j > 0 {
                assert(es[j] == es.drop_first()[j - 1]);
            }
        }
    }
}

proof fn lemma_key_present(es: ManifestEntries, key: Seq<char>)
    requires
        key_index(es, key) >= 0,
    ensures
        key_index(es, key) < es.len(),
        es[key_index(es, key)].0 == key,
    decreases es.len(),
{
    if es.len() > 0 && es[0].0 != key {
        lemma_key_present(es.drop_first(), key);
        assert(es[key_index(es, key)] == es.drop_first()[key_index(es.drop_first(), key)]);
    }
}

/// Loading a manifest under its id keeps the ids distinct.
pub proof fn lemma_with_entry_distinct(es: ManifestEntries, key: Seq<char>, v: LoadedManifest)
    requires
        ids_distinct(es),
    ensures
        ids_distinct(with_entry(es, key, v)),
{
    if key_index(es, key) >= 0 {
        lemma_key_present(es, key);
        let r = with_entry(es, key, v);
        assert forall|i: int, j: int| 0 <= i < j < r.len() implies (#[trigger] r[i]).0 != (
        #[trigger] r[j]).0 by {
            assert(r[i].0 == es[i].0);
            assert(r[j].0 == es[j].0);
        }
    } else {
        lemma_key_absent(es, key);
        let r = with_entry(es, key, v);
        assert forall|i: int, j: int| 0 <= i < j < r.len() implies (#[trigger] r[i]).0 != (
        #[trigger] r[j]).0 by {
            if j < es.len() {
                assert(r[i] == es[i] && r[j] == es[j]);
            } else {
                assert(r[i] == es[i]);
            }
        }
    }
}

/// Keeping only some manifests keeps the ids distinct.
pub proof fn lemma_filter_distinct(es: ManifestEntries, keep: spec_fn((Seq<char>, LoadedManifest)) -> bool)
    requires
        ids_distinct(es),
    ensures
        ids_distinct(es.filter(keep)),
    decreases es.len(),
{
    reveal_with_fuel(Seq::<_>::filter, 1);
    if es.len() > 0 {
        let init = es.drop_last();
        assert(ids_distinct(init)) by {
            assert forall|i: int, j: int| 0 <= i < j < init.len() implies (#[trigger] init[i]).0 != (
            #[trigger] init[j]).0 by {
                assert(init[i] == es[i] && init[j] == es[j]);
            }
        }
        lemma_filter_distinct(init, keep);
        let f = init.filter(keep);
        if keep(es.last()) {
            assert forall|i: int| 0 <= i < f.len() implies (#[trigger] f[i]).0 != es.last().0 by {
                assert(f.contains(f[i]));
                init.lemma_filter_contains_rev(keep, f[i]);
                let k = choose|k: int| 0 <= k < init.len() && init[k] == f[i];
                assert(es[k] == init[k]);
                assert(es[es.len() - 1] == es.last());
            }
            let r = f.push(es.last());
            assert forall|i: int, j: int| 0 <= i < j < r.len() implies (#[trigger] r[i]).0 != (
            #[trigger] r[j]).0 by {
                if j < f.len() {
                    assert(r[i] == f[i] && r[j] == f[j]);
                } else {
                    assert(r[i] == f[i]);
                }
            }
            assert(es.filter(keep) == r);
        }
    }
}

/// The manifests loaded from a directory, by id.
pub struct ManifestLoader {
    manifests: Vec<(String, LoadedManifest)>,
    directory: PathBuf,
}

pub open spec fn entry_views(v: Seq<(String, LoadedManifest)>) -> ManifestEntries {
    v.map_values(|e: (String, LoadedManifest)| (e.0@, e.1))
}

/// A manifest declares the capability.
pub open spec fn has_capability(m: AgentManifest, capability: Seq<char>) -> bool {
    exists|i: int| 0 <= i < m.capabilities@.len() && (#[trigger] m.capabilities@[i])@ == capability
}

impl ManifestLoader {
    /// The loaded manifests, by id, in order of first loading.
    pub closed spec fn entries(&self) -> ManifestEntries {
        entry_views(self.manifests@)
    }

    pub closed spec fn dir(&self) -> PathBuf {
        self.directory
    }

    /// Each manifest is stored under its own id, and no id twice.
    pub open spec fn wf(&self) -> bool {
        &&& ids_distinct(self.entries())
        &&& forall|i: int|
            0 <= i < self.entries().len() ==> (#[trigger] self.entries()[i]).0
                == self.entries()[i].1.manifest.id@
    }

    pub fn new(directory: PathBuf) -> (r: Self)
        ensures
            r.entries().len() == 0,
            r.dir() == directory,
            r.wf(),
    {
        let r = ManifestLoader { manifests: Vec::new(), directory };
        assert(r.entries() =~= Seq::<(Seq<char>, LoadedManifest)>::empty());
        r
    }

    pub fn directory(&self) -> (r: &PathBuf)
        ensures
            *r == self.dir(),
    {
        &self.directory
    }

    fn find_id(&self, id: &str) -> (r: Option<usize>)
        ensures
            match r {
                Some(i) => i == key_index(self.entries(), id@) && i < self.manifests@.len(),
                None => key_index(self.entries(), id@) == -1,
            },
    {
        let ghost es = self.entries();
        let mut i: usize = 0;
        while i < self.manifests.len()
            invariant
                0 <= i <= self.manifests@.len(),
                es == entry_views(self.manifests@),
                forall|j: int| 0 <= j < i ==> (#[trigger] es[j]).0 != id@,
            decreases self.manifests@.len() - i,
        {
            assert(es[i as int].0 == self.manifests@[i as int].0@);
            if str_eq(self.manifests[i].0.as_str(), id) {
                proof {
                    lemma_key_index(es, id@, i as int);
                }
                return Some(i);
            }
            i = i + 1;
        }
        proof {
            lemma_key_index(es, id@, i as int);
        }
        None
    }

    fn put(&mut self, lm: LoadedManifest)
        requires
            old(self).wf(),
        ensures
            final(self).entries() == with_entry(old(self).entries(), lm.manifest.id@, lm),
            final(self).wf(),
            final(self).dir() == old(self).dir(),
    {
        let ghost before = self.entries();
        let ghost v = lm;
        let key = lm.manifest.id.clone();
        proof {
            lemma_with_entry_distinct(before, key@, v);
        }
        match self.find_id(key.as_str()) {
            Some(i) => {
                self.manifests.remove(i);
                self.manifests.insert(i, (key, lm));
                assert(self.entries() =~= before.update(i as int, (v.manifest.id@, v)));
            },
            None => {
                self.manifests.push((key, lm));
                assert(self.entries() =~= before.push((v.manifest.id@, v)));
            },
        }
        proof {
            let es = self.entries();
            assert forall|i: int| 0 <= i < es.len() implies (#[trigger] es[i]).0
                == es[i].1.manifest.id@ by {
                if i < before.len() && es[i] == before[i] {
                } else {
                    assert(es[i] == (v.manifest.id@, v));
                }
            }
        }
    }

    /// Load a manifest read from the file at `path` with the given content
    /// hash: a valid manifest replaces any manifest with its id; an invalid
    /// one is refused and nothing changes.
    pub fn load(&mut self, manifest: AgentManifest, path: String, content_hash: String) -> (r: Result<
        (),
        ManifestError,
    >)
        requires
            old(self).wf(),
        ensures
            r == manifest_check(manifest.id@, manifest.name@),
            final(self).wf(),
            final(self).dir() == old(self).dir(),
            r is Ok ==> final(self).entries() == with_entry(
                old(self).entries(),
                manifest.id@,
                LoadedManifest { manifest, path, content_hash },
            ),
            r is Err ==> final(self).entries() == old(self).entries(),
    {
        let checked = validate_manifest(manifest.id.as_str(), manifest.name.as_str());
        match checked {
            Ok(()) => {
                self.put(LoadedManifest { manifest, path, content_hash });
                Ok(())
            },
            Err(e) => Err(e),
        }
    }

    /// The content hash of the first manifest loaded from the path.
    pub fn loaded_hash(&self, path: &str) -> (r: Option<&str>)
        ensures
            path_index(self.entries(), path@) < 0 ==> r is None,
            path_index(self.entries(), path@) >= 0 ==> (r matches Some(h) && h@ == self.entries()[path_index(
                self.entries(),
                path@,
            )].1.content_hash@),
    {
        let ghost es = self.entries();
        let mut i: usize = 0;
        while i < self.manifests.len()
            invariant
                0 <= i <= self.manifests@.len(),
                es == entry_views(self.manifests@),
                forall|j: int| 0 <= j < i ==> (#[trigger] es[j]).1.path@ != path@,
            decreases self.manifests@.len() - i,
        {
            assert(es[i as int].1 == self.manifests@[i as int].1);
            if str_eq(self.manifests[i].1.path.as_str(), path) {
                proof {
                    lemma_path_index(es, path@, i as int);
                }
                return Some(self.manifests[i].1.content_hash.as_str());
            }
            i = i + 1;
        }
        proof {
            lemma_path_index(es, path@, i as int);
        }
        None
    }

    /// One file of a change check: when the file is new or its hash
    /// changed, and it parsed into a valid manifest, that manifest is loaded
    /// and its id returned; otherwise nothing changes.
    pub fn reload_file(&mut self, path: String, content_hash: String, parsed: Option<AgentManifest>) -> (r:
        Option<String>)
        requires
            old(self).wf(),
        ensures
            final(self).wf(),
            final(self).dir() == old(self).dir(),
            ({
                let i = path_index(old(self).entries(), path@);
                let stale = i < 0 || old(self).entries()[i].1.content_hash@ != content_hash@;
                match parsed {
                    Some(m) => if stale && manifest_check(m.id@, m.name@) is Ok {
                        r matches Some(id) && id@ == m.id@ && final(self).entries() == with_entry(
                            old(self).entries(),
                            m.id@,
                            LoadedManifest { manifest: m, path, content_hash },
                        )
                    } else {
                        r is None && final(self).entries() == old(self).entries()
                    },
                    None => r is None && final(self).entries() == old(self).entries(),
                }
            }),
    {
        let stale = match self.loaded_hash(path.as_str()) {
            Some(h) => !str_eq(h, content_hash.as_str()),
            None => true,
        };
        if !stale {
            return None;
        }
        match parsed {
            Some(m) => {
                let id = m.id.clone();
                match self.load(m, path, content_hash) {
                    Ok(()) => Some(id),
                    Err(_) => None,
                }
            },
            None => None,
        }
    }

    /// Forget the manifests whose file is not among the files on disk.
    pub fn retain_on_disk(&mut self, disk_paths: &[String])
        requires
            old(self).wf(),
        ensures
            final(self).wf(),
            final(self).dir() == old(self).dir(),
            final(self).entries() == old(self).entries().filter(
                |e: (Seq<char>, LoadedManifest)| disk_paths@.map_values(|p: String| p@).contains(e.1.path@),
            ),
    {
        let ghost before = self.entries();
        let ghost ps = disk_paths@.map_values(|p: String| p@);
        let ghost keep = |e: (Seq<char>, LoadedManifest)| ps.contains(e.1.path@);
        let mut kept: Vec<(String, LoadedManifest)> = Vec::new();
        let mut old_entries: Vec<(String, LoadedManifest)> = Vec::new();
        std::mem::swap(&mut old_entries, &mut self.manifests);
        assert(entry_views(old_entries@) == before);
        let n = old_entries.len();
        let mut rest = old_entries;
        let mut k: usize = 0;
        while k < n
            invariant
                0 <= k <= n,
                n == before.len(),
                entry_views(rest@) == before.skip(k as int),
                entry_views(kept@) == before.take(k as int).filter(keep),
                ps == disk_paths@.map_values(|p: String| p@),
                keep == (|e: (Seq<char>, LoadedManifest)| ps.contains(e.1.path@)),
            decreases n - k,
        {
            reveal_with_fuel(Seq::<_>::filter, 1);
            assert(entry_views(rest@)[0] == before[k as int]);
            assert(rest@.len() == entry_views(rest@).len());
            let ghost r0 = rest@;
            let e = rest.remove(0);
            assert(rest@ =~= r0.skip(1));
            assert forall|i: int| 0 <= i < rest@.len() implies #[trigger] entry_views(rest@)[i]
                == before.skip(k + 1)[i] by {
                assert(entry_views(r0)[i + 1] == before.skip(k as int)[i + 1]);
            }
            assert(entry_views(rest@) =~= before.skip(k + 1));
            assert(before.take(k + 1).drop_last() =~= before.take(k as int));
            let mut on_disk = false;
            let mut j: usize = 0;
            while j < disk_paths.len()
                invariant
                    0 <= j <= disk_paths@.len(),
                    ps == disk_paths@.map_values(|p: String| p@),
                    on_disk == (exists|q: int| 0 <= q < j && ps[q] == e.1.path@),
                decreases disk_paths@.len() - j,
            {
                assert(ps[j as int] == disk_paths@[j as int]@);
                if str_eq(disk_paths[j].as_str(), e.1.path.as_str()) {
                    on_disk = true;
                }
                j = j + 1;
            }
            assert(on_disk == ps.contains(e.1.path@));
            if on_disk {
                let ghost k0 = entry_views(kept@);
                kept.push(e);
                assert(entry_views(kept@) =~= k0.push(before[k as int]));
            }
            k = k + 1;
        }
        assert(before.take(n as int) =~= before);
        self.manifests = kept;
        proof {
            let es = self.entries();
            lemma_filter_distinct(before, keep);
            assert forall|i: int| 0 <= i < es.len() implies (#[trigger] es[i]).0
                == es[i].1.manifest.id@ by {
                assert(es.contains(es[i]));
                before.lemma_filter_contains_rev(keep, es[i]);
                let k = choose|k: int| 0 <= k < before.len() && before[k] == es[i];
                assert(before[k].0 == before[k].1.manifest.id@);
            }
        }
    }

    /// The manifest loaded under the id.
    pub fn get(&self, id: &str) -> (r: Option<&AgentManifest>)
        ensures
            key_index(self.entries(), id@) < 0 ==> r is None,
            key_index(self.entries(), id@) >= 0 ==> (r matches Some(m) && *m == self.entries()[key_index(
                self.entries(),
                id@,
            )].1.manifest),
    {
        match self.find_id(id) {
            Some(i) => Some(&self.manifests[i].1.manifest),
            None => None,
        }
    }

    /// All loaded manifests, in order.
    pub fn list(&self) -> (r: Vec<&AgentManifest>)
        ensures
            r@.map_values(|m: &AgentManifest| *m) == self.entries().map_values(
                |e: (Seq<char>, LoadedManifest)| e.1.manifest,
            ),
    {
        let ghost es = self.entries();
        let mut out: Vec<&AgentManifest> = Vec::new();
        let mut i: usize = 0;
        while i < self.manifests.len()
            invariant
                0 <= i <= self.manifests@.len(),
                es == entry_views(self.manifests@),
                out@.map_values(|m: &AgentManifest| *m) == es.take(i as int).map_values(
                    |e: (Seq<char>, LoadedManifest)| e.1.manifest,
                ),
            decreases self.manifests@.len() - i,
        {
            let ghost o0 = out@.map_values(|m: &AgentManifest| *m);
            out.push(&self.manifests[i].1.manifest);
            assert(out@.map_values(|m: &AgentManifest| *m) =~= o0.push(es[i as int].1.manifest));
            assert(es.take(i + 1).map_values(|e: (Seq<char>, LoadedManifest)| e.1.manifest) =~= es.take(
                i as int,
            ).map_values(|e: (Seq<char>, LoadedManifest)| e.1.manifest).push(es[i as int].1.manifest));
            i = i + 1;
        }
        assert(es.take(self.manifests@.len() as int) =~= es);
        out
    }

    /// The loaded manifests that declare the capability, in order.
    pub fn find_by_capability(&self, capability: &str) -> (r: Vec<&AgentManifest>)
        ensures
            r@.map_values(|m: &AgentManifest| *m) == self.entries().filter(
                |e: (Seq<char>, LoadedManifest)| has_capability(e.1.manifest, capability@),
            ).map_values(|e: (Seq<char>, LoadedManifest)| e.1.manifest),
    {
        let ghost es = self.entries();
        let ghost keep = |e: (Seq<char>, LoadedManifest)| has_capability(e.1.manifest, capability@);
        let mut out: Vec<&AgentManifest> = Vec::new();
        let mut i: usize = 0;
        while i < self.manifests.len()
            invariant
                0 <= i <= self.manifests@.len(),
                es == entry_views(self.manifests@),
                keep == (|e: (Seq<char>, LoadedManifest)| has_capability(e.1.manifest, capability@)),
                out@.map_values(|m: &AgentManifest| *m) == es.take(i as int).filter(keep).map_values(
                    |e: (Seq<char>, LoadedManifest)| e.1.manifest,
                ),
            decreases self.manifests@.len() - i,
        {
            reveal_with_fuel(Seq::<_>::filter, 1);
            assert(es.take(i + 1).drop_last() =~= es.take(i as int));
            let m = &self.manifests[i].1.manifest;
            assert(es[i as int].1.manifest == *m);
            let mut found = false;
            let mut j: usize = 0;
            while j < m.capabilities.len()
                invariant
                    0 <= j <= m.capabilities@.len(),
                    found == (exists|q: int| 0 <= q < j && (#[trigger] m.capabilities@[q])@ == capability@),
                decreases m.capabilities@.len() - j,
            {
                if str_eq(m.capabilities[j].as_str(), capability) {
                    found = true;
                }
                j = j + 1;
            }
            let ghost f0 = es.take(i as int).filter(keep);
            if found {
                let ghost o0 = out@.map_values(|m: &AgentManifest| *m);
                out.push(m);
                assert(out@.map_values(|m: &AgentManifest| *m) =~= o0.push(*m));
                assert(es.take(i + 1).filter(keep) == f0.push(es[i as int]));
                assert(f0.push(es[i as int]).map_values(|e: (Seq<char>, LoadedManifest)| e.1.manifest)
                    =~= f0.map_values(|e: (Seq<char>, LoadedManifest)| e.1.manifest).push(*m));
            } else {
                assert(es.take(i + 1).filter(keep) == f0);
            }
            i = i + 1;
        }
        assert(es.take(self.manifests@.len() as int) =~= es);
        out
    }

    pub fn count(&self) -> (r: usize)
        ensures
            r == self.entries().len(),
    {
        self.manifests.len()
    }
}

} // verus!
