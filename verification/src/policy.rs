//! Tool-call policy: who may call which tools, and the rules that screen a
//! call's arguments (forbidden tools, protected paths, rate limits,
//! malicious patterns).

use vstd::prelude::*;

use crate::obsidian::strip_trailing;
use crate::text::{
    contains, contains_chars, ends_with, ends_with_chars, from_chars, lowercase, push_str, str_eq,
    to_chars, to_lowercase, utf8,
};

verus! {

broadcast use vstd::string::group_string_axioms;

/// A JSON value, as tool arguments arrive.
#[derive(Debug)]
pub enum JsonValue {
    Null,
    Bool(bool),
    Number(String),
    Str(String),
    Array(Vec<JsonValue>),
    Object(Vec<(String, JsonValue)>),
}

/// Every string inside a JSON value, in document order.
pub open spec fn string_values(v: JsonValue) -> Seq<Seq<char>>
    decreases v, 1int,
{
    match v {
        JsonValue::Str(s) => seq![s@],
        JsonValue::Array(items) => list_strings(items@),
        JsonValue::Object(entries) => entry_strings(entries@),
        _ => seq![],
    }
}

pub open spec fn list_strings(items: Seq<JsonValue>) -> Seq<Seq<char>>
    decreases items, 0int,
{
    if items.len() == 0 {
        seq![]
    } else {
        list_strings(items.drop_last()) + string_values(items.last())
    }
}

pub open spec fn entry_strings(entries: Seq<(String, JsonValue)>) -> Seq<Seq<char>>
    decreases entries, 0int,
{
    if entries.len() == 0 {
        seq![]
    } else {
        entry_strings(entries.drop_last()) + string_values(entries.last().1)
    }
}

pub open spec fn views_of(v: Seq<String>) -> Seq<Seq<char>> {
    v.map_values(|s: String| s@)
}

/// Append every string inside `value` to `out`.
pub fn collect_string_values(value: &JsonValue, out: &mut Vec<String>)
    ensures
        views_of(final(out)@) == views_of(old(out)@) + string_values(*value),
    decreases value,
{
    match value {
        JsonValue::Str(s) => {
            let ghost o0 = views_of(out@);
            out.push(s.clone());
            assert(views_of(out@) =~= o0 + seq![s@]);
        },
        JsonValue::Array(items) => {
            let ghost o0 = views_of(out@);
            let mut i: usize = 0;
            proof {
                assert(decreases_to!(*value => (*value)->Array_0));
            }
            while i < items.len()
                invariant
                    0 <= i <= items@.len(),
                    decreases_to!(*value => *items),
                    views_of(out@) == o0 + list_strings(items@.take(i as int)),
                decreases items@.len() - i,
            {
                assert(items@.take(i + 1).drop_last() =~= items@.take(i as int));
                proof {
                    assert(decreases_to!(*items => items@));
                    assert(decreases_to!(items@ => items@[i as int]));
                }
                collect_string_values(&items[i], out);
                i = i + 1;
            }
            assert(items@.take(items@.len() as int) =~= items@);
        },
        JsonValue::Object(entries) => {
            let ghost o0 = views_of(out@);
            let mut i: usize = 0;
            proof {
                assert(decreases_to!(*value => (*value)->Object_0));
            }
            while i < entries.len()
                invariant
                    0 <= i <= entries@.len(),
                    decreases_to!(*value => *entries),
                    views_of(out@) == o0 + entry_strings(entries@.take(i as int)),
                decreases entries@.len() - i,
            {
                assert(entries@.take(i + 1).drop_last() =~= entries@.take(i as int));
                proof {
                    assert(decreases_to!(*entries => entries@));
                    assert(decreases_to!(entries@ => entries@[i as int]));
                    assert(decreases_to!(entries@[i as int] => entries@[i as int].1));
                }
                collect_string_values(&entries[i].1, out);
                i = i + 1;
            }
            assert(entries@.take(entries@.len() as int) =~= entries@);
        },
        _ => {
            assert(views_of(out@) =~= views_of(out@) + Seq::<Seq<char>>::empty());
        },
    }
}

// ── Decisions and context ──────────────────────────────────────

/// Who is asking for the tool call.
#[derive(Debug, Clone, Copy, PartialEq, Eq, Structural)]
pub enum InputAuthority {
    Creator,
    SelfGenerated,
    Peer,
    External,
}

/// How risky a tool is, from least to most.
#[derive(Debug, Clone, Copy, PartialEq, Eq, Structural)]
pub enum RiskLevel {
    Safe,
    Caution,
    Dangerous,
    Forbidden,
}

pub open spec fn risk_rank(r: RiskLevel) -> nat {
    match r {
        RiskLevel::Safe => 0,
        RiskLevel::Caution => 1,
        RiskLevel::Dangerous => 2,
        RiskLevel::Forbidden => 3,
    }
}

impl RiskLevel {
    /// The position of the level in the order Safe < Caution < Dangerous <
    /// Forbidden.
    pub fn rank(&self) -> (r: u8)
        ensures
            r == risk_rank(*self),
    {
        match self {
            RiskLevel::Safe => 0,
            RiskLevel::Caution => 1,
            RiskLevel::Dangerous => 2,
            RiskLevel::Forbidden => 3,
        }
    }
}

/// The survival tier the agent is running in.
#[derive(Debug, Clone, Copy, PartialEq, Eq, Structural)]
pub enum SurvivalTier {
    High,
    Normal,
}

#[derive(Debug)]
pub enum PolicyDecision {
    Allow,
    Deny { rule: String, reason: String },
}

impl PolicyDecision {
    pub fn is_allowed(&self) -> (r: bool)
        ensures
            r == (*self is Allow),
    {
        match self {
            PolicyDecision::Allow => true,
            PolicyDecision::Deny { .. } => false,
        }
    }
}

/// A decision as the contracts see it: `None` to allow, else the denying
/// rule and the reason.
pub open spec fn decision_view(d: PolicyDecision) -> Option<(Seq<char>, Seq<char>)> {
    match d {
        PolicyDecision::Allow => None,
        PolicyDecision::Deny { rule, reason } => Some((rule@, reason@)),
    }
}

#[derive(Debug, Clone, Copy)]
pub struct PolicyContext {
    pub authority: InputAuthority,
    pub survival_tier: SurvivalTier,
}

#[derive(Debug)]
pub struct ToolCallRequest {
    pub tool_name: String,
    pub params: JsonValue,
    pub risk_level: RiskLevel,
}

fn deny(rule: &str, reason: Vec<char>) -> (r: PolicyDecision)
    ensures
        decision_view(r) == Some((rule@, reason@)),
{
    PolicyDecision::Deny { rule: rule.to_owned(), reason: from_chars(reason.as_slice()) }
}

// ── Authority ──────────────────────────────────────────────────

pub open spec fn authority_name(a: InputAuthority) -> Seq<char> {
    match a {
        InputAuthority::Creator => "Creator"@,
        InputAuthority::SelfGenerated => "SelfGenerated"@,
        InputAuthority::Peer => "Peer"@,
        InputAuthority::External => "External"@,
    }
}

pub open spec fn risk_name(r: RiskLevel) -> Seq<char> {
    match r {
        RiskLevel::Safe => "Safe"@,
        RiskLevel::Caution => "Caution"@,
        RiskLevel::Dangerous => "Dangerous"@,
        RiskLevel::Forbidden => "Forbidden"@,
    }
}

/// The riskiest level each authority may use: creators any, the agent
/// itself up to dangerous, peers up to caution, outsiders only safe tools.
pub open spec fn authority_allows(a: InputAuthority, r: RiskLevel) -> bool {
    match a {
        InputAuthority::Creator => true,
        InputAuthority::SelfGenerated => risk_rank(r) <= 2,
        InputAuthority::Peer => risk_rank(r) <= 1,
        InputAuthority::External => risk_rank(r) == 0,
    }
}

fn authority_text(a: InputAuthority) -> (r: &'static str)
    ensures
        r@ == authority_name(a),
{
    match a {
        InputAuthority::Creator => "Creator",
        InputAuthority::SelfGenerated => "SelfGenerated",
        InputAuthority::Peer => "Peer",
        InputAuthority::External => "External",
    }
}

fn risk_text(r: RiskLevel) -> (s: &'static str)
    ensures
        s@ == risk_name(r),
{
    match r {
        RiskLevel::Safe => "Safe",
        RiskLevel::Caution => "Caution",
        RiskLevel::Dangerous => "Dangerous",
        RiskLevel::Forbidden => "Forbidden",
    }
}

/// Priority 1: restricts tool access based on input authority level.
pub struct AuthorityRule;

impl AuthorityRule {
    pub fn name(&self) -> (r: &'static str)
        ensures
            r@ == "authority"@,
    {
        "authority"
    }

    pub fn priority(&self) -> (r: u32)
        ensures
            r == 1,
    {
        1
    }

    pub fn evaluate(&self, call: &ToolCallRequest, ctx: &PolicyContext) -> (r: PolicyDecision)
        ensures
            authority_allows(ctx.authority, call.risk_level) ==> r is Allow,
            !authority_allows(ctx.authority, call.risk_level) ==> decision_view(r) == Some(
                (
                    "authority"@,
                    authority_name(ctx.authority) + " authority cannot use "@ + risk_name(
                        call.risk_level,
                    ) + "-level tool '"@ + call.tool_name@ + "'"@,
                ),
            ),
    {
        let rank = call.risk_level.rank();
        let allowed = match ctx.authority {
            InputAuthority::Creator => true,
            InputAuthority::SelfGenerated => rank <= 2,
            InputAuthority::Peer => rank <= 1,
            InputAuthority::External => rank == 0,
        };
        if allowed {
            PolicyDecision::Allow
        } else {
            let mut reason: Vec<char> = Vec::new();
            push_str(&mut reason, authority_text(ctx.authority));
            push_str(&mut reason, " authority cannot use ");
            push_str(&mut reason, risk_text(call.risk_level));
            push_str(&mut reason, "-level tool '");
            push_str(&mut reason, call.tool_name.as_str());
            push_str(&mut reason, "'");
            deny("authority", reason)
        }
    }
}

// ── Command safety ─────────────────────────────────────────────

/// Priority 2: blocks Forbidden-risk tools unconditionally.
pub struct CommandSafetyRule;

impl CommandSafetyRule {
    pub fn name(&self) -> (r: &'static str)
        ensures
            r@ == "command_safety"@,
    {
        "command_safety"
    }

    pub fn priority(&self) -> (r: u32)
        ensures
            r == 2,
    {
        2
    }

    pub fn evaluate(&self, call: &ToolCallRequest, ctx: &PolicyContext) -> (r: PolicyDecision)
        ensures
            call.risk_level != RiskLevel::Forbidden ==> r is Allow,
            call.risk_level == RiskLevel::Forbidden ==> decision_view(r) == Some(
                ("command_safety"@, "tool '"@ + call.tool_name@ + "' is forbidden"@),
            ),
    {
        if call.risk_level == RiskLevel::Forbidden {
            let mut reason: Vec<char> = Vec::new();
            push_str(&mut reason, "tool '");
            push_str(&mut reason, call.tool_name.as_str());
            push_str(&mut reason, "' is forbidden");
            deny("command_safety", reason)
        } else {
            PolicyDecision::Allow
        }
    }
}

// ── Path protection ────────────────────────────────────────────

/// Priority 4: blocks access to protected path patterns and enforces
/// workspace-only confinement for agent file tools.
pub struct PathProtectionRule {
    /// Path patterns that are not allowed in tool arguments.
    pub protected: Vec<String>,
    /// When true, absolute paths outside `/tmp` are denied.
    pub workspace_only: bool,
}

pub open spec fn texts(v: Seq<String>) -> Seq<Seq<char>> {
    v.map_values(|s: String| s@)
}

/// The patterns protected unless configured otherwise.
pub open spec fn default_protected() -> Seq<Seq<char>> {
    seq!["/etc/"@, ".env"@, "wallet.json"@, "private_key"@, ".ssh/"@, "ironclad.toml"@]
}

impl Default for PathProtectionRule {
    fn default() -> (r: Self)
        ensures
            texts(r.protected@) == default_protected(),
            r.workspace_only,
    {
        let protected = vec![
            "/etc/".to_owned(),
            ".env".to_owned(),
            "wallet.json".to_owned(),
            "private_key".to_owned(),
            ".ssh/".to_owned(),
            "ironclad.toml".to_owned(),
        ];
        assert(texts(protected@) =~= default_protected());
        PathProtectionRule { protected, workspace_only: true }
    }
}

/// A text hits a protected pattern when, both lowercased, the text contains
/// the pattern or ends with the pattern without its trailing '/'s.
pub open spec fn hits(s: Seq<char>, pattern: Seq<char>) -> bool {
    let sl = lowercase(s);
    let pl = lowercase(pattern);
    contains(sl, pl) || ends_with(sl, strip_trailing(pl, "/"@))
}

/// The first pattern that `s` hits, if any.
pub open spec fn first_hit(patterns: Seq<Seq<char>>, s: Seq<char>) -> Option<Seq<char>>
    decreases patterns.len(),
{
    if patterns.len() == 0 {
        None
    } else if hits(s, patterns[0]) {
        Some(patterns[0])
    } else {
        first_hit(patterns.drop_first(), s)
    }
}

/// The path is `/tmp` itself or lies under it.
pub open spec fn in_tmp(s: Seq<char>) -> bool {
    s == "/tmp"@ || crate::text::starts_with(s, "/tmp/"@)
}

/// Whether a path is `/tmp` or under `/tmp/` (by path components, so
/// `/tmpevil` is not).
pub fn is_in_tmp(s: &str) -> (r: bool)
    ensures
        r == in_tmp(s@),
{
    proof {
        reveal_strlit("/tmp");
        reveal_strlit("/tmp/");
    }
    let chars = to_chars(s);
    let dir = to_chars("/tmp/");
    str_eq(s, "/tmp") || crate::text::starts_with_chars(chars.as_slice(), dir.as_slice())
}

/// The index of the first absolute path outside `/tmp`, or -1.
pub open spec fn first_escape(strings: Seq<Seq<char>>, absolute: Seq<bool>) -> int
    decreases strings.len(),
{
    if strings.len() == 0 {
        -1
    } else if absolute[0] && !in_tmp(strings[0]) {
        0
    } else if first_escape(strings.drop_first(), absolute.drop_first()) < 0 {
        -1
    } else {
        1 + first_escape(strings.drop_first(), absolute.drop_first())
    }
}

/// The first string that hits a protected pattern, with that pattern.
pub open spec fn first_protected(strings: Seq<Seq<char>>, patterns: Seq<Seq<char>>) -> Option<Seq<char>>
    decreases strings.len(),
{
    if strings.len() == 0 {
        None
    } else {
        match first_hit(patterns, strings[0]) {
            Some(p) => Some(p),
            None => first_protected(strings.drop_first(), patterns),
        }
    }
}

/// The path rule's decision over the argument strings, knowing which of
/// them are absolute paths.
pub open spec fn path_decision(
    patterns: Seq<Seq<char>>,
    workspace_only: bool,
    strings: Seq<Seq<char>>,
    absolute: Seq<bool>,
) -> Option<(Seq<char>, Seq<char>)> {
    let e = first_escape(strings, absolute);
    if workspace_only && e >= 0 {
        Some(
            (
                "path_protection"@,
                "workspace_only mode: absolute path '"@ + strings[e]
                    + "' outside /tmp not allowed"@,
            ),
        )
    } else {
        match first_protected(strings, patterns) {
            Some(p) => Some(("path_protection"@, "protected path pattern '"@ + p + "' not allowed"@)),
            None => None,
        }
    }
}

/// Calls `Path::is_absolute` on the text as a path. What counts as absolute
/// depends on the platform, so nothing is stated of the answer.
#[verifier::external_body]
fn path_is_absolute(s: &str) -> (r: bool) {
    std::path::Path::new(s).is_absolute()
}

proof fn lemma_first_escape(strings: Seq<Seq<char>>, absolute: Seq<bool>, i: int)
    requires
        0 <= i <= strings.len(),
        absolute.len() == strings.len(),
        forall|j: int|
            0 <= j < i ==> !(absolute[j] && !in_tmp(#[trigger] strings[j])),
        i == strings.len() || (absolute[i] && !in_tmp(strings[i])),
    ensures
        first_escape(strings, absolute) == if i == strings.len() {
            -1
        } else {
            i
        },
    decreases i,
{
    if i > 0 {
        assert forall|j: int| 0 <= j < i - 1 implies !(absolute.drop_first()[j]
            && !in_tmp(#[trigger] strings.drop_first()[j])) by {
            assert(strings.drop_first()[j] == strings[j + 1]);
            assert(absolute.drop_first()[j] == absolute[j + 1]);
        }
        if i < strings.len() {
            assert(strings.drop_first()[i - 1] == strings[i]);
            assert(absolute.drop_first()[i - 1] == absolute[i]);
        }
        lemma_first_escape(strings.drop_first(), absolute.drop_first(), i - 1);
    }
}

impl PathProtectionRule {
    pub fn new(protected: Vec<String>) -> (r: Self)
        ensures
            r.protected@ == protected@,
            r.workspace_only,
    {
        PathProtectionRule { protected, workspace_only: true }
    }

    /// Build from the filesystem security settings: the protected paths,
    /// then the extra ones, and the workspace-only flag.
    pub fn from_settings(protected_paths: &[String], extra_protected_paths: &[String], workspace_only: bool) -> (r: Self)
        ensures
            texts(r.protected@) == texts(protected_paths@) + texts(extra_protected_paths@),
            r.workspace_only == workspace_only,
    {
        let mut protected: Vec<String> = Vec::new();
        let mut i: usize = 0;
        while i < protected_paths.len()
            invariant
                0 <= i <= protected_paths@.len(),
                texts(protected@) == texts(protected_paths@).take(i as int),
            decreases protected_paths@.len() - i,
        {
            let ghost p0 = texts(protected@);
            protected.push(protected_paths[i].clone());
            assert(texts(protected@) =~= p0.push(protected_paths@[i as int]@));
            assert(texts(protected_paths@).take(i + 1) =~= texts(protected_paths@).take(i as int).push(
                protected_paths@[i as int]@,
            ));
            i = i + 1;
        }
        assert(texts(protected_paths@).take(protected_paths@.len() as int) =~= texts(protected_paths@));
        let ghost base = texts(protected@);
        let mut j: usize = 0;
        while j < extra_protected_paths.len()
            invariant
                0 <= j <= extra_protected_paths@.len(),
                base == texts(protected_paths@),
                texts(protected@) == base + texts(extra_protected_paths@).take(j as int),
            decreases extra_protected_paths@.len() - j,
        {
            let ghost p0 = texts(protected@);
            protected.push(extra_protected_paths[j].clone());
            assert(texts(protected@) =~= p0.push(extra_protected_paths@[j as int]@));
            assert(base + texts(extra_protected_paths@).take(j + 1) =~= base + texts(
                extra_protected_paths@,
            ).take(j as int).push(extra_protected_paths@[j as int]@));
            j = j + 1;
        }
        assert(texts(extra_protected_paths@).take(extra_protected_paths@.len() as int) =~= texts(
            extra_protected_paths@,
        ));
        PathProtectionRule { protected, workspace_only }
    }

    pub fn name(&self) -> (r: &'static str)
        ensures
            r@ == "path_protection"@,
    {
        "path_protection"
    }

    pub fn priority(&self) -> (r: u32)
        ensures
            r == 4,
    {
        4
    }

    /// The first protected pattern that `s` hits.
    pub fn matches_protected(&self, s: &str) -> (r: Option<&String>)
        ensures
            match first_hit(texts(self.protected@), s@) {
                Some(p) => r matches Some(q) && q@ == p,
                None => r is None,
            },
    {
        let ghost ps = texts(self.protected@);
        let lower = to_lowercase(s);
        let s_lower = to_chars(lower.as_str());
        let mut slash: Vec<char> = Vec::new();
        slash.push('/');
        proof {
            reveal_strlit("/");
        }
        assert(slash@ =~= "/"@);
        let mut i: usize = 0;
        assert(ps.skip(0) =~= ps);
        while i < self.protected.len()
            invariant
                0 <= i <= self.protected@.len(),
                ps == texts(self.protected@),
                s_lower@ == lowercase(s@),
                slash@ == "/"@,
                first_hit(ps, s@) == first_hit(ps.skip(i as int), s@),
            decreases self.protected@.len() - i,
        {
            assert(ps.skip(i as int).drop_first() =~= ps.skip(i + 1));
            assert(ps.skip(i as int)[0] == self.protected@[i as int]@);
            let p_lower_text = to_lowercase(self.protected[i].as_str());
            let p_lower = to_chars(p_lower_text.as_str());
            let trimmed = crate::obsidian::strip_trailing_chars(p_lower.as_slice(), slash.as_slice());
            if contains_chars(s_lower.as_slice(), p_lower.as_slice()) || ends_with_chars(
                s_lower.as_slice(),
                trimmed.as_slice(),
            ) {
                return Some(&self.protected[i]);
            }
            i = i + 1;
        }
        None
    }

    /// The decision for argument strings whose absoluteness is known.
    pub fn decide(&self, strings: &[String], absolute: &[bool]) -> (r: PolicyDecision)
        requires
            absolute@.len() == strings@.len(),
        ensures
            decision_view(r) == path_decision(
                texts(self.protected@),
                self.workspace_only,
                texts(strings@),
                absolute@,
            ),
    {
        let ghost sv = texts(strings@);
        if self.workspace_only {
            let mut i: usize = 0;
            while i < strings.len()
                invariant
                    0 <= i <= strings@.len(),
                    absolute@.len() == strings@.len(),
                    sv == texts(strings@),
                    self.workspace_only,
                    forall|j: int| 0 <= j < i ==> !(absolute@[j] && !in_tmp(#[trigger] sv[j])),
                decreases strings@.len() - i,
            {
                assert(sv[i as int] == strings@[i as int]@);
                if absolute[i] && !is_in_tmp(strings[i].as_str()) {
                    proof {
                        lemma_first_escape(sv, absolute@, i as int);
                    }
                    let mut reason: Vec<char> = Vec::new();
                    push_str(&mut reason, "workspace_only mode: absolute path '");
                    push_str(&mut reason, strings[i].as_str());
                    push_str(&mut reason, "' outside /tmp not allowed");
                    return deny("path_protection", reason);
                }
                i = i + 1;
            }
            proof {
                lemma_first_escape(sv, absolute@, i as int);
            }
        }
        let mut k: usize = 0;
        assert(sv.skip(0) =~= sv);
        while k < strings.len()
            invariant
                0 <= k <= strings@.len(),
                sv == texts(strings@),
                absolute@.len() == strings@.len(),
                self.workspace_only ==> first_escape(sv, absolute@) < 0,
                first_protected(sv, texts(self.protected@)) == first_protected(
                    sv.skip(k as int),
                    texts(self.protected@),
                ),
            decreases strings@.len() - k,
        {
            assert(sv.skip(k as int).drop_first() =~= sv.skip(k + 1));
            assert(sv.skip(k as int)[0] == strings@[k as int]@);
            match self.matches_protected(strings[k].as_str()) {
                Some(p) => {
                    let mut reason: Vec<char> = Vec::new();
                    push_str(&mut reason, "protected path pattern '");
                    push_str(&mut reason, p.as_str());
                    push_str(&mut reason, "' not allowed");
                    return deny("path_protection", reason);
                },
                None => {},
            }
            k = k + 1;
        }
        PolicyDecision::Allow
    }

    /// Evaluate a tool call: its argument strings are checked for absolute
    /// paths outside `/tmp` (when confined to the workspace) and for
    /// protected patterns.
    pub fn evaluate(&self, call: &ToolCallRequest, ctx: &PolicyContext) -> (r: PolicyDecision)
        ensures
            exists|absolute: Seq<bool>|
                absolute.len() == string_values(call.params).len() && decision_view(r)
                    == path_decision(
                    texts(self.protected@),
                    self.workspace_only,
                    string_values(call.params),
                    absolute,
                ),
    {
        let mut strings: Vec<String> = Vec::new();
        collect_string_values(&call.params, &mut strings);
        assert(views_of(strings@) =~= string_values(call.params));
        let mut absolute: Vec<bool> = Vec::new();
        let mut i: usize = 0;
        while i < strings.len()
            invariant
                0 <= i <= strings@.len(),
                absolute@.len() == i,
            decreases strings@.len() - i,
        {
            absolute.push(path_is_absolute(strings[i].as_str()));
            i = i + 1;
        }
        assert(texts(strings@) == views_of(strings@));
        self.decide(strings.as_slice(), absolute.as_slice())
    }
}

// ── Rate limiting ──────────────────────────────────────────────

/// Priority 5: rate-limits tool calls per tool name. Times are
/// milliseconds on a monotonic clock.
pub struct RateLimitRule {
    max_calls_per_minute: u32,
    calls: Vec<(String, Vec<u64>)>,
}

/// The recorded call times of a tool (the first entry with its name).
pub open spec fn recorded(calls: Seq<(String, Vec<u64>)>, tool: Seq<char>) -> Seq<u64>
    decreases calls.len(),
{
    if calls.len() == 0 {
        seq![]
    } else if calls[0].0@ == tool {
        calls[0].1@
    } else {
        recorded(calls.drop_first(), tool)
    }
}

/// No two entries carry the same tool name.
pub open spec fn names_distinct(calls: Seq<(String, Vec<u64>)>) -> bool {
    forall|i: int, j: int| 0 <= i < j < calls.len() ==> (#[trigger] calls[i]).0@ != (#[trigger] calls[j]).0@
}

/// The call times after `cutoff`.
pub open spec fn after(times: Seq<u64>, cutoff: u64) -> Seq<u64> {
    times.filter(|t: u64| t > cutoff)
}

impl Default for RateLimitRule {
    fn default() -> (r: Self)
        ensures
            r.limit() == 30,
            r.well_formed(),
            forall|t: Seq<char>| r.history(t).len() == 0,
    {
        RateLimitRule::new(30)
    }
}

impl RateLimitRule {
    /// The calls of `tool` that the rule remembers.
    pub closed spec fn history(&self, tool: Seq<char>) -> Seq<u64> {
        recorded(self.calls@, tool)
    }

    pub closed spec fn limit(&self) -> u32 {
        self.max_calls_per_minute
    }

    /// Each tool name has at most one entry.
    pub closed spec fn well_formed(&self) -> bool {
        names_distinct(self.calls@)
    }

    pub fn new(max_calls_per_minute: u32) -> (r: Self)
        ensures
            r.limit() == max_calls_per_minute,
            r.well_formed(),
            forall|t: Seq<char>| r.history(t).len() == 0,
    {
        RateLimitRule { max_calls_per_minute, calls: Vec::new() }
    }

    pub fn name(&self) -> (r: &'static str)
        ensures
            r@ == "rate_limit"@,
    {
        "rate_limit"
    }

    pub fn priority(&self) -> (r: u32)
        ensures
            r == 5,
    {
        5
    }

    /// Keep only the times after `cutoff`.
    pub fn prune_older_than(cuts: &mut Vec<u64>, cutoff: u64)
        ensures
            final(cuts)@ == after(old(cuts)@, cutoff),
    {
        let ghost original = cuts@;
        let mut kept: Vec<u64> = Vec::new();
        let mut i: usize = 0;
        while i < cuts.len()
            invariant
                0 <= i <= cuts@.len(),
                cuts@ == original,
                kept@ == after(original.take(i as int), cutoff),
            decreases cuts@.len() - i,
        {
            reveal_with_fuel(Seq::<_>::filter, 1);
            assert(original.take(i + 1).drop_last() =~= original.take(i as int));
            if cuts[i] > cutoff {
                kept.push(cuts[i]);
            }
            i = i + 1;
        }
        assert(original.take(original.len() as int) =~= original);
        *cuts = kept;
    }

    fn entry_index(&self, tool: &str) -> (r: Option<usize>)
        ensures
            match r {
                Some(i) => i < self.calls@.len() && self.calls@[i as int].0@ == tool@ && self.history(tool@)
                    == self.calls@[i as int].1@ && forall|j: int| 0 <= j < i ==> self.calls@[j].0@ != tool@,
                None => self.history(tool@) == Seq::<u64>::empty() && forall|j: int|
                    0 <= j < self.calls@.len() ==> self.calls@[j].0@ != tool@,
            },
    {
        let mut i: usize = 0;
        assert(self.calls@.skip(0) =~= self.calls@);
        while i < self.calls.len()
            invariant
                0 <= i <= self.calls@.len(),
                recorded(self.calls@, tool@) == recorded(self.calls@.skip(i as int), tool@),
                forall|j: int| 0 <= j < i ==> self.calls@[j].0@ != tool@,
            decreases self.calls@.len() - i,
        {
            assert(self.calls@.skip(i as int).drop_first() =~= self.calls@.skip(i + 1));
            assert(self.calls@.skip(i as int)[0] == self.calls@[i as int]);
            if str_eq(self.calls[i].0.as_str(), tool) {
                return Some(i);
            }
            i = i + 1;
        }
        None
    }

    /// Evaluate a call made at `now_ms`: the tool's calls of the last minute
    /// are kept; if they already reach the limit the call is denied,
    /// otherwise it is recorded and allowed.
    pub fn evaluate_at(&mut self, call: &ToolCallRequest, now_ms: u64) -> (r: PolicyDecision)
        requires
            now_ms >= 60_000,
        ensures
            final(self).limit() == old(self).limit(),
            old(self).well_formed() ==> final(self).well_formed(),
            ({
                let kept = after(old(self).history(call.tool_name@), (now_ms - 60_000) as u64);
                if kept.len() >= old(self).limit() {
                    &&& decision_view(r) == Some(
                        (
                            "rate_limit"@,
                            "tool '"@ + call.tool_name@ + "' rate limit exceeded (max "@
                                + crate::text::decimal(old(self).limit() as nat) + " per minute)"@,
                        ),
                    )
                    &&& final(self).history(call.tool_name@) == kept
                } else {
                    &&& r is Allow
                    &&& final(self).history(call.tool_name@) == kept.push(now_ms)
                }
            }),
            forall|t: Seq<char>| t != call.tool_name@ ==> final(self).history(t) == old(self).history(t),
    {
        let cutoff: u64 = now_ms - 60_000;
        let ghost tool = call.tool_name@;
        let ghost old_calls = self.calls@;
        let idx = match self.entry_index(call.tool_name.as_str()) {
            Some(i) => i,
            None => {
                let entry: (String, Vec<u64>) = (call.tool_name.clone(), Vec::new());
                let ghost e = entry;
                self.calls.push(entry);
                proof {
                    assert(self.calls@ == old_calls.push(e));
                    assert forall|t: Seq<char>| t != tool implies recorded(self.calls@, t) == recorded(
                        old_calls,
                        t,
                    ) by {
                        lemma_recorded_push(old_calls, e, t);
                    }
                    assert forall|j: int| 0 <= j < old_calls.len() implies self.calls@[j].0@
                        != tool by {
                        assert(self.calls@[j] == old_calls[j]);
                    }
                    if names_distinct(old_calls) {
                        assert forall|i: int, j: int| 0 <= i < j < self.calls@.len() implies (
                        #[trigger] self.calls@[i]).0@ != (#[trigger] self.calls@[j]).0@ by {
                            assert(self.calls@[i] == old_calls[i]);
                            if j < old_calls.len() {
                                assert(self.calls@[j] == old_calls[j]);
                            }
                        }
                    }
                }
                self.calls.len() - 1
            },
        };
        let ghost mid = self.calls@;
        assert(mid[idx as int].0@ == tool);
        assert(forall|j: int| 0 <= j < idx ==> mid[j].0@ != tool);
        proof {
            lemma_recorded_at(mid, idx as int, tool);
        }
        let (name, mut cuts) = self.calls.remove(idx);
        assert(name@ == tool);
        let ghost before_prune = cuts@;
        assert(before_prune == recorded(mid, tool));
        RateLimitRule::prune_older_than(&mut cuts, cutoff);
        if cuts.len() >= self.max_calls_per_minute as usize {
            let ghost kept = cuts@;
            let entry = (name, cuts);
            let ghost e = entry;
            self.calls.insert(idx, entry);
            assert(self.calls@ =~= mid.update(idx as int, e));
            proof {
                assert forall|t: Seq<char>| t != tool implies recorded(self.calls@, t) == recorded(mid, t) by {
                    lemma_recorded_update(mid, idx as int, e, t);
                }
                lemma_recorded_update(mid, idx as int, e, tool);
                lemma_rename_free_update(mid, idx as int, e);
            }
            let mut reason: Vec<char> = Vec::new();
            push_str(&mut reason, "tool '");
            push_str(&mut reason, call.tool_name.as_str());
            push_str(&mut reason, "' rate limit exceeded (max ");
            let mut n = crate::text::decimal_chars(self.max_calls_per_minute as usize);
            reason.append(&mut n);
            push_str(&mut reason, " per minute)");
            deny("rate_limit", reason)
        } else {
            cuts.push(now_ms);
            let entry = (name, cuts);
            let ghost e = entry;
            self.calls.insert(idx, entry);
            assert(self.calls@ =~= mid.update(idx as int, e));
            proof {
                assert forall|t: Seq<char>| t != tool implies recorded(self.calls@, t) == recorded(mid, t) by {
                    lemma_recorded_update(mid, idx as int, e, t);
                }
                lemma_recorded_update(mid, idx as int, e, tool);
                lemma_rename_free_update(mid, idx as int, e);
            }
            PolicyDecision::Allow
        }
    }
}

/// The times recorded under the first entry with a tool's name.
proof fn lemma_recorded_at(calls: Seq<(String, Vec<u64>)>, i: int, t: Seq<char>)
    requires
        0 <= i < calls.len(),
        calls[i].0@ == t,
        forall|j: int| 0 <= j < i ==> calls[j].0@ != t,
    ensures
        recorded(calls, t) == calls[i].1@,
    decreases i,
{
    if i > 0 {
        assert forall|j: int| 0 <= j < i - 1 implies (#[trigger] calls.drop_first()[j]).0@ != t by {
            assert(calls.drop_first()[j] == calls[j + 1]);
        }
        assert(calls.drop_first()[i - 1] == calls[i]);
        lemma_recorded_at(calls.drop_first(), i - 1, t);
    }
}

proof fn lemma_recorded_update(calls: Seq<(String, Vec<u64>)>, i: int, e: (String, Vec<u64>), t: Seq<char>)
    requires
        0 <= i < calls.len(),
        e.0@ == calls[i].0@,
        forall|j: int| 0 <= j < i ==> calls[j].0@ != calls[i].0@,
    ensures
        t == e.0@ ==> recorded(calls.update(i, e), t) == e.1@,
        t != e.0@ ==> recorded(calls.update(i, e), t) == recorded(calls, t),
    decreases i,
{
    if i > 0 {
        assert(calls.update(i, e).drop_first() =~= calls.drop_first().update(i - 1, e));
        assert forall|j: int| 0 <= j < i - 1 implies (#[trigger] calls.drop_first()[j]).0@
            != calls.drop_first()[i - 1].0@ by {
            assert(calls.drop_first()[j] == calls[j + 1]);
        }
        assert(calls.drop_first()[i - 1] == calls[i]);
        lemma_recorded_update(calls.drop_first(), i - 1, e, t);
        assert(calls.update(i, e)[0] == calls[0]);
    } else {
        assert(calls.update(i, e).drop_first() =~= calls.drop_first());
    }
}

proof fn lemma_rename_free_update(calls: Seq<(String, Vec<u64>)>, i: int, e: (String, Vec<u64>))
    requires
        0 <= i < calls.len(),
        e.0@ == calls[i].0@,
    ensures
        names_distinct(calls) ==> names_distinct(calls.update(i, e)),
{
    if names_distinct(calls) {
        let u = calls.update(i, e);
        assert forall|a: int, b: int| 0 <= a < b < u.len() implies (#[trigger] u[a]).0@ != (#[trigger] u[b]).0@ by {
            assert(calls[a].0@ != calls[b].0@);
        }
    }
}

proof fn lemma_recorded_push(calls: Seq<(String, Vec<u64>)>, e: (String, Vec<u64>), t: Seq<char>)
    requires
        e.0@ != t,
    ensures
        recorded(calls.push(e), t) == recorded(calls, t),
    decreases calls.len(),
{
    if calls.len() > 0 {
        assert(calls.push(e).drop_first() =~= calls.drop_first().push(e));
        assert(calls.push(e)[0] == calls[0]);
        lemma_recorded_push(calls.drop_first(), e, t);
    } else {
        assert(calls.push(e).drop_first() =~= Seq::<(String, Vec<u64>)>::empty());
        assert(calls.push(e)[0] == e);
        assert(recorded(calls.push(e).drop_first(), t) == Seq::<u64>::empty());
        assert(recorded(calls, t) == Seq::<u64>::empty());
    }
}

// ── Validation ─────────────────────────────────────────────────

/// The largest serialized argument size accepted (100 KB).
pub const MAX_ARG_SIZE_BYTES: usize = 100 * 1024;

/// A string looks malicious: shell command substitution (`$` with `(`,
/// a backtick or `${`), a chained `rm`, `curl` or `wget` after "; ", or a
/// path traversal ("..", with a slash or backslash).
pub open spec fn malicious(s: Seq<char>) -> bool {
    let lower = lowercase(s);
    ||| s.contains('$') && (s.contains('(') || s.contains('`') || contains(s, "${"@))
    ||| contains(s, "; "@) && (contains(lower, "rm "@) || contains(lower, "curl "@) || contains(
        lower,
        "wget "@,
    ))
    ||| contains(s, ".."@) && (s.contains('/') || s.contains('\\'))
}

fn has_char(v: &[char], c: char) -> (r: bool)
    ensures
        r == v@.contains(c),
{
    let mut i: usize = 0;
    while i < v.len()
        invariant
            0 <= i <= v@.len(),
            forall|j: int| 0 <= j < i ==> v@[j] != c,
        decreases v@.len() - i,
    {
        if v[i] == c {
            assert(v@[i as int] == c);
            return true;
        }
        i = i + 1;
    }
    false
}

/// Priority 6: validates argument size and blocks malicious patterns.
pub struct ValidationRule;

/// The validation decision for arguments of a given serialized size whose
/// strings are `strings`.
pub open spec fn validation_decision(size: nat, strings: Seq<Seq<char>>) -> Option<(Seq<char>, Seq<char>)> {
    if size > MAX_ARG_SIZE_BYTES {
        Some(("validation"@, "arguments exceed maximum size ("@ + crate::text::decimal(MAX_ARG_SIZE_BYTES as nat) + " bytes)"@))
    } else if exists|i: int| 0 <= i < strings.len() && malicious(#[trigger] strings[i]) {
        Some(
            (
                "validation"@,
                "arguments contain potentially malicious pattern (shell injection or path traversal)"@,
            ),
        )
    } else {
        None
    }
}

impl ValidationRule {
    pub fn name(&self) -> (r: &'static str)
        ensures
            r@ == "validation"@,
    {
        "validation"
    }

    pub fn priority(&self) -> (r: u32)
        ensures
            r == 6,
    {
        6
    }

    pub fn looks_malicious(s: &str) -> (r: bool)
        ensures
            r == malicious(s@),
    {
        let chars = to_chars(s);
        let lower_text = to_lowercase(s);
        let lower = to_chars(lower_text.as_str());
        let v = chars.as_slice();
        if has_char(v, '$') && (has_char(v, '(') || has_char(v, '`') || crate::text::contains_str(v, "${")) {
            return true;
        }
        if crate::text::contains_str(v, "; ") && (crate::text::contains_str(lower.as_slice(), "rm ")
            || crate::text::contains_str(lower.as_slice(), "curl ") || crate::text::contains_str(
            lower.as_slice(),
            "wget ",
        )) {
            return true;
        }
        if crate::text::contains_str(v, "..") && (has_char(v, '/') || has_char(v, '\\')) {
            return true;
        }
        false
    }

    /// Evaluate a call whose arguments serialize to `serialized_size`
    /// bytes of JSON.
    pub fn evaluate(&self, call: &ToolCallRequest, ctx: &PolicyContext, serialized_size: usize) -> (r:
        PolicyDecision)
        ensures
            decision_view(r) == validation_decision(
                serialized_size as nat,
                string_values(call.params),
            ),
    {
        if serialized_size > MAX_ARG_SIZE_BYTES {
            let mut reason: Vec<char> = Vec::new();
            push_str(&mut reason, "arguments exceed maximum size (");
            let mut n = crate::text::decimal_chars(MAX_ARG_SIZE_BYTES);
            reason.append(&mut n);
            push_str(&mut reason, " bytes)");
            return deny("validation", reason);
        }
        let mut strings: Vec<String> = Vec::new();
        collect_string_values(&call.params, &mut strings);
        assert(views_of(strings@) =~= string_values(call.params));
        let ghost sv = string_values(call.params);
        let mut i: usize = 0;
        while i < strings.len()
            invariant
                0 <= i <= strings@.len(),
                sv == views_of(strings@),
                sv == string_values(call.params),
                serialized_size <= MAX_ARG_SIZE_BYTES,
                forall|j: int| 0 <= j < i ==> !malicious(#[trigger] sv[j]),
            decreases strings@.len() - i,
        {
            assert(sv[i as int] == strings@[i as int]@);
            if ValidationRule::looks_malicious(strings[i].as_str()) {
                assert(malicious(sv[i as int]));
                let mut reason: Vec<char> = Vec::new();
                push_str(
                    &mut reason,
                    "arguments contain potentially malicious pattern (shell injection or path traversal)",
                );
                assert(reason@ =~= "arguments contain potentially malicious pattern (shell injection or path traversal)"@);
                return deny("validation", reason);
            }
            i = i + 1;
        }
        PolicyDecision::Allow
    }
}

// ── Financial screening ────────────────────────────────────────

/// A tool is financial when its lowercased name contains "transfer",
/// "send", "withdraw", "deposit", "payment" or "wallet".
pub open spec fn financial_name(name: Seq<char>) -> bool {
    let l = lowercase(name);
    ||| contains(l, "transfer"@)
    ||| contains(l, "send"@)
    ||| contains(l, "withdraw"@)
    ||| contains(l, "deposit"@)
    ||| contains(l, "payment"@)
    ||| contains(l, "wallet"@)
}

pub fn is_financial_tool(name: &str) -> (r: bool)
    ensures
        r == financial_name(name@),
{
    let lower_text = to_lowercase(name);
    let l = to_chars(lower_text.as_str());
    let v = l.as_slice();
    crate::text::contains_str(v, "transfer") || crate::text::contains_str(v, "send")
        || crate::text::contains_str(v, "withdraw") || crate::text::contains_str(v, "deposit")
        || crate::text::contains_str(v, "payment") || crate::text::contains_str(v, "wallet")
}

/// The arguments are an object with a key that changes the wallet or
/// drains it: "drain", "withdraw_all", "export_private_key" or
/// "set_wallet_path".
pub open spec fn drains_wallet(params: JsonValue) -> bool {
    match params {
        JsonValue::Object(entries) => exists|i: int|
            0 <= i < entries@.len() && {
                let k = (#[trigger] entries@[i]).0@;
                k == "drain"@ || k == "withdraw_all"@ || k == "export_private_key"@ || k
                    == "set_wallet_path"@
            },
        _ => false,
    }
}

#[verifier::loop_isolation(false)]
pub fn is_wallet_config_or_drain(params: &JsonValue) -> (r: bool)
    ensures
        r == drains_wallet(*params),
{
    match params {
        JsonValue::Object(entries) => {
            let mut i: usize = 0;
            while i < entries.len()
                invariant
                    0 <= i <= entries@.len(),
                    forall|j: int|
                        0 <= j < i ==> {
                            let k = (#[trigger] entries@[j]).0@;
                            !(k == "drain"@ || k == "withdraw_all"@ || k == "export_private_key"@
                                || k == "set_wallet_path"@)
                        },
                decreases entries@.len() - i,
            {
                let k = entries[i].0.as_str();
                if str_eq(k, "drain") || str_eq(k, "withdraw_all") || str_eq(k, "export_private_key")
                    || str_eq(k, "set_wallet_path") {
                    assert(entries@[i as int].0@ == k@);
                    return true;
                }
                i = i + 1;
            }
            false
        },
        _ => false,
    }
}

} // verus!
