//! Skills: content hashes, the frontmatter of instruction skills, and
//! keyword matching.

use sha2::{Digest, Sha256};
use vstd::prelude::*;

use crate::prompt::{hex_digit, hex_lower};
use crate::text::{
    from_chars, lowercase, starts_with, starts_with_chars, sub_chars, to_chars, to_lowercase, trim,
    trim_chars,
};

verus! {

broadcast use vstd::string::group_string_axioms;

/// SHA-256 of the bytes, as `sha2::Sha256` computes it.
pub uninterp spec fn sha256(data: Seq<u8>) -> Seq<u8>;

/// Hashes the bytes with `sha2::Sha256` (`new`, `update`, `finalize`): the
/// 32-byte digest.
#[verifier::external_body]
fn sha256_digest(data: &[u8]) -> (r: Vec<u8>)
    ensures
        r@ == sha256(data@),
        r@.len() == 32,
{
    let mut hasher = Sha256::new();
    hasher.update(data);
    hasher.finalize().to_vec()
}

fn hex_char(n: u8) -> (c: char)
    requires
        n < 16,
    ensures
        c == hex_digit(n as int),
{
    if n < 10 {
        crate::text::digit_char(n as usize)
    } else if n == 10 {
        'a'
    } else if n == 11 {
        'b'
    } else if n == 12 {
        'c'
    } else if n == 13 {
        'd'
    } else if n == 14 {
        'e'
    } else {
        'f'
    }
}

/// Lowercase hex, two digits per byte (as `{:x}` formats a digest).
pub fn hex_string(bytes: &[u8]) -> (r: String)
    ensures
        r@ == hex_lower(bytes@),
{
    let ghost b = bytes@;
    let mut chars: Vec<char> = Vec::new();
    let mut j: usize = 0;
    assert(b.skip(0) =~= b);
    assert(chars@ + hex_lower(b.skip(0)) =~= hex_lower(b));
    while j < bytes.len()
        invariant
            0 <= j <= bytes@.len(),
            b == bytes@,
            chars@ + hex_lower(b.skip(j as int)) == hex_lower(b),
        decreases bytes@.len() - j,
    {
        let x = bytes[j];
        let hi = hex_char(x / 16);
        let lo = hex_char(x % 16);
        let ghost c0 = chars@;
        chars.push(hi);
        chars.push(lo);
        assert(b.skip(j as int).drop_first() =~= b.skip(j + 1));
        assert(b.skip(j as int)[0] == x);
        assert(c0 + hex_lower(b.skip(j as int)) =~= chars@ + hex_lower(b.skip(j + 1)));
        j = j + 1;
    }
    assert(b.skip(bytes@.len() as int) =~= Seq::<u8>::empty());
    assert(chars@ =~= hex_lower(b));
    from_chars(chars.as_slice())
}

/// The lowercase hex SHA-256 of the bytes.
pub open spec fn content_digest(data: Seq<u8>) -> Seq<char> {
    hex_lower(sha256(data))
}

/// The content hash of a skill file.
pub fn content_hash(data: &[u8]) -> (r: String)
    ensures
        r@ == content_digest(data@),
{
    let digest = sha256_digest(data);
    hex_string(digest.as_slice())
}

/// Loads skills from a directory.
pub struct SkillLoader;

/// Why an instruction skill's frontmatter could not be found.
#[derive(Debug, Clone, Copy, PartialEq, Eq, Structural)]
pub enum FrontmatterError {
    /// The document does not start with `---`.
    Missing,
    /// No closing `---` follows.
    Unclosed,
}

/// How an instruction skill splits: after trimming, it must start with
/// `---`; the YAML runs to the next `---`, and the body is what follows,
/// trimmed.
pub open spec fn instruction_parts(content: Seq<char>) -> Result<(Seq<char>, Seq<char>), FrontmatterError> {
    let t = trim(content);
    let rest = t.skip(3);
    let end = crate::text::first_occurrence(rest, "---"@);
    if !starts_with(t, "---"@) {
        Err(FrontmatterError::Missing)
    } else if end < 0 {
        Err(FrontmatterError::Unclosed)
    } else {
        Ok((rest.take(end), trim(rest.skip(end + 3))))
    }
}

/// Split an instruction skill into its YAML frontmatter and its body.
pub fn split_instruction_md(content: &str) -> (r: Result<(String, String), FrontmatterError>)
    ensures
        match instruction_parts(content@) {
            Ok((y, b)) => r matches Ok((ys, bs)) && ys@ == y && bs@ == b,
            Err(e) => r == Err::<(String, String), FrontmatterError>(e),
        },
{
    proof {
        reveal_strlit("---");
    }
    let chars = to_chars(content);
    let t = trim_chars(chars.as_slice());
    let dashes = vec!['-', '-', '-'];
    assert(dashes@ =~= "---"@);
    if !starts_with_chars(t.as_slice(), dashes.as_slice()) {
        return Err(FrontmatterError::Missing);
    }
    let rest = sub_chars(t.as_slice(), 3, t.len());
    assert(rest@ =~= trim(content@).skip(3));
    match crate::text::find_chars(rest.as_slice(), dashes.as_slice()) {
        Some(end) => {
            let yaml = sub_chars(rest.as_slice(), 0, end);
            let after = sub_chars(rest.as_slice(), end + 3, rest.len());
            let body = trim_chars(after.as_slice());
            Ok((from_chars(yaml.as_slice()), from_chars(body.as_slice())))
        },
        None => Err(FrontmatterError::Unclosed),
    }
}

/// Some trigger keyword, lowercased, contains some lowercased keyword.
pub open spec fn triggered(triggers: Seq<Seq<char>>, keywords: Seq<Seq<char>>) -> bool {
    exists|i: int, j: int|
        0 <= i < keywords.len() && 0 <= j < triggers.len() && crate::text::contains(
            lowercase(#[trigger] triggers[j]),
            lowercase(#[trigger] keywords[i]),
        )
}

/// Whether a skill with the given trigger keywords matches any keyword
/// (case-insensitive substring match).
pub fn triggers_match(triggers: &[String], keywords: &[&str]) -> (r: bool)
    ensures
        r == triggered(
            triggers@.map_values(|t: String| t@),
            keywords@.map_values(|k: &str| k@),
        ),
{
    let ghost ts = triggers@.map_values(|t: String| t@);
    let ghost ks = keywords@.map_values(|k: &str| k@);
    let mut i: usize = 0;
    while i < keywords.len()
        invariant
            0 <= i <= keywords@.len(),
            ts == triggers@.map_values(|t: String| t@),
            ks == keywords@.map_values(|k: &str| k@),
            forall|a: int, b: int|
                0 <= a < i && 0 <= b < ts.len() ==> !crate::text::contains(
                    lowercase(#[trigger] ts[b]),
                    lowercase(#[trigger] ks[a]),
                ),
        decreases keywords@.len() - i,
    {
        let kw = to_lowercase(keywords[i]);
        let kw_chars = to_chars(kw.as_str());
        let mut j: usize = 0;
        while j < triggers.len()
            invariant
                0 <= i < keywords@.len(),
                0 <= j <= triggers@.len(),
                ts == triggers@.map_values(|t: String| t@),
                ks == keywords@.map_values(|k: &str| k@),
                kw_chars@ == lowercase(ks[i as int]),
                forall|b: int| 0 <= b < j ==> !crate::text::contains(lowercase(#[trigger] ts[b]), kw_chars@),
            decreases triggers@.len() - j,
        {
            let t = to_lowercase(triggers[j].as_str());
            let t_chars = to_chars(t.as_str());
            assert(ts[j as int] == triggers@[j as int]@);
            if crate::text::contains_chars(t_chars.as_slice(), kw_chars.as_slice()) {
                assert(crate::text::contains(lowercase(ts[j as int]), lowercase(ks[i as int])));
                return true;
            }
            j = j + 1;
        }
        i = i + 1;
    }
    false
}

/// What a loaded skill declares: its name, description, trigger keywords
/// and priority.
#[derive(Debug)]
pub struct SkillInfo {
    pub name: String,
    pub description: String,
    pub trigger_keywords: Vec<String>,
    pub priority: u32,
}

/// A skill loaded from a directory: a structured skill (TOML manifest) with
/// the hash of its file, or an instruction skill (Markdown with frontmatter)
/// with the hash of its file and its body.
#[derive(Debug)]
pub enum LoadedSkill {
    Structured(SkillInfo, String),
    Instruction(SkillInfo, String, String),
}

pub open spec fn skill_info(s: LoadedSkill) -> SkillInfo {
    match s {
        LoadedSkill::Structured(i, _) => i,
        LoadedSkill::Instruction(i, _, _) => i,
    }
}

/// The trigger keywords of a skill, as text.
pub open spec fn skill_keywords(s: LoadedSkill) -> Seq<Seq<char>> {
    skill_info(s).trigger_keywords@.map_values(|t: String| t@)
}

impl LoadedSkill {
    pub fn name(&self) -> (r: &str)
        ensures
            r@ == skill_info(*self).name@,
    {
        match self {
            LoadedSkill::Structured(i, _) => i.name.as_str(),
            LoadedSkill::Instruction(i, _, _) => i.name.as_str(),
        }
    }

    pub fn trigger_keywords(&self) -> (r: &Vec<String>)
        ensures
            r@ == skill_info(*self).trigger_keywords@,
    {
        match self {
            LoadedSkill::Structured(i, _) => &i.trigger_keywords,
            LoadedSkill::Instruction(i, _, _) => &i.trigger_keywords,
        }
    }

    pub fn hash(&self) -> (r: &str)
        ensures
            r@ == match *self {
                LoadedSkill::Structured(_, h) => h@,
                LoadedSkill::Instruction(_, h, _) => h@,
            },
    {
        match self {
            LoadedSkill::Structured(_, h) => h.as_str(),
            LoadedSkill::Instruction(_, h, _) => h.as_str(),
        }
    }
}

/// The skills known to the agent, in order of registration.
pub struct SkillRegistry {
    skills: Vec<LoadedSkill>,
}

impl SkillRegistry {
    pub closed spec fn skills(&self) -> Seq<LoadedSkill> {
        self.skills@
    }

    pub fn new() -> (r: Self)
        ensures
            r.skills().len() == 0,
    {
        SkillRegistry { skills: Vec::new() }
    }

    pub fn register(&mut self, skill: LoadedSkill)
        ensures
            final(self).skills() == old(self).skills().push(skill),
    {
        self.skills.push(skill);
    }

    /// The skills, in order, some of whose trigger keywords contain one of
    /// the keywords, ignoring case.
    pub fn match_skills(&self, keywords: &[&str]) -> (r: Vec<&LoadedSkill>)
        ensures
            r@.map_values(|s: &LoadedSkill| *s) == self.skills().filter(
                |s: LoadedSkill| triggered(skill_keywords(s), keywords@.map_values(|k: &str| k@)),
            ),
    {
        let ghost ks = keywords@.map_values(|k: &str| k@);
        let ghost all = self.skills@;
        let mut out: Vec<&LoadedSkill> = Vec::new();
        let mut i: usize = 0;
        while i < self.skills.len()
            invariant
                0 <= i <= self.skills@.len(),
                all == self.skills@,
                ks == keywords@.map_values(|k: &str| k@),
                out@.map_values(|s: &LoadedSkill| *s) == all.take(i as int).filter(
                    |s: LoadedSkill| triggered(skill_keywords(s), ks),
                ),
            decreases self.skills@.len() - i,
        {
            reveal_with_fuel(Seq::<_>::filter, 1);
            assert(all.take(i + 1).drop_last() =~= all.take(i as int));
            let skill = &self.skills[i];
            let kws = skill.trigger_keywords();
            assert(kws@.map_values(|t: String| t@) == skill_keywords(all[i as int]));
            if triggers_match(kws.as_slice(), keywords) {
                let ghost o0 = out@.map_values(|s: &LoadedSkill| *s);
                out.push(skill);
                assert(out@.map_values(|s: &LoadedSkill| *s) =~= o0.push(all[i as int]));
            }
            i = i + 1;
        }
        assert(all.take(self.skills@.len() as int) =~= all);
        out
    }
}

impl Default for SkillRegistry {
    fn default() -> (r: Self)
        ensures
            r.skills().len() == 0,
    {
        SkillRegistry::new()
    }
}

} // verus!
