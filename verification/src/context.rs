//! Context assembly within a token budget, soft trimming of old history,
//! progressive compaction stages and the instruction anti-fade reminder.

use vstd::prelude::*;

use crate::prompt::ANTI_FADE_TURN_THRESHOLD;
use crate::retrieval::{estimate_tokens, tokens_for_bytes};
use crate::text::{
    from_chars, lowercase, push_str, str_eq, sub_chars, to_chars, to_lowercase, trim, trim_chars,
    utf8, join, join_chars,
};
use crate::utf8_text::{byte_slice, find, find_in, lemma_after_ascii_is_boundary, lemma_find_from};
use vstd::utf8::{decode_utf8, is_char_boundary};

verus! {

broadcast use {
    vstd::string::group_string_axioms,
    vstd::utf8::encode_utf8_valid_utf8,
    vstd::utf8::is_char_boundary_start_end_of_seq,
};

/// A conversation message: who spoke and what was said.
#[derive(Debug)]
pub struct Message {
    pub role: String,
    pub content: String,
}

impl Message {
    pub fn new(role: &str, content: &str) -> (r: Message)
        ensures
            r.role@ == role@,
            r.content@ == content@,
    {
        Message { role: role.to_owned(), content: content.to_owned() }
    }
}

impl Clone for Message {
    fn clone(&self) -> (r: Message)
        ensures
            r.role@ == self.role@,
            r.content@ == self.content@,
    {
        Message { role: self.role.clone(), content: self.content.clone() }
    }
}

/// A message as the contracts see it: (role, content).
pub type MsgView = (Seq<char>, Seq<char>);

pub open spec fn msg_view(m: Message) -> MsgView {
    (m.role@, m.content@)
}

pub open spec fn views(ms: Seq<Message>) -> Seq<MsgView> {
    ms.map_values(|m: Message| msg_view(m))
}

pub open spec fn is_system(m: MsgView) -> bool {
    m.0 == "system"@
}

/// The estimated token count of a message's content.
pub open spec fn msg_tokens(m: MsgView) -> nat {
    tokens_for_bytes(utf8(m.1).len())
}

/// The estimated token count of all messages.
pub open spec fn total_tokens(ms: Seq<MsgView>) -> nat
    decreases ms.len(),
{
    if ms.len() == 0 {
        0
    } else {
        total_tokens(ms.drop_last()) + msg_tokens(ms.last())
    }
}

fn is_system_role(m: &Message) -> (r: bool)
    ensures
        r == is_system(msg_view(*m)),
{
    str_eq(m.role.as_str(), "system")
}

/// Estimated token count of a message list.
pub fn count_tokens(messages: &[Message]) -> (r: usize)
    requires
        total_tokens(views(messages@)) <= usize::MAX,
    ensures
        r == total_tokens(views(messages@)),
{
    let ghost vs = views(messages@);
    let mut sum: usize = 0;
    let mut i: usize = 0;
    while i < messages.len()
        invariant
            0 <= i <= messages@.len(),
            vs == views(messages@),
            total_tokens(vs) <= usize::MAX,
            sum == total_tokens(vs.take(i as int)),
        decreases messages@.len() - i,
    {
        assert(vs.take(i + 1).drop_last() =~= vs.take(i as int));
        proof {
            lemma_total_tokens_prefix(vs, i + 1);
        }
        sum = sum + estimate_tokens(messages[i].content.as_str());
        i = i + 1;
    }
    assert(vs.take(messages@.len() as int) =~= vs);
    sum
}

/// The tokens of a prefix never exceed the tokens of the whole.
pub proof fn lemma_total_tokens_prefix(ms: Seq<MsgView>, k: int)
    requires
        0 <= k <= ms.len(),
    ensures
        total_tokens(ms.take(k)) <= total_tokens(ms),
    decreases ms.len() - k,
{
    if k < ms.len() {
        lemma_total_tokens_prefix(ms, k + 1);
        assert(ms.take(k + 1).drop_last() =~= ms.take(k));
    } else {
        assert(ms.take(k) =~= ms);
    }
}

// ── Complexity levels & context assembly ─────────────────────────────────────

#[derive(Debug, Clone, Copy, PartialEq, Eq, Structural)]
pub enum ComplexityLevel {
    L0,
    L1,
    L2,
    L3,
}

pub open spec fn budget_of(level: ComplexityLevel) -> nat {
    match level {
        ComplexityLevel::L0 => 4_000,
        ComplexityLevel::L1 => 8_000,
        ComplexityLevel::L2 => 16_000,
        ComplexityLevel::L3 => 32_000,
    }
}

pub fn token_budget(level: ComplexityLevel) -> (r: usize)
    ensures
        r == budget_of(level),
{
    match level {
        ComplexityLevel::L0 => 4_000,
        ComplexityLevel::L1 => 8_000,
        ComplexityLevel::L2 => 16_000,
        ComplexityLevel::L3 => 32_000,
    }
}

/// Progressive compaction stages, ordered from least to most aggressive.
#[derive(Debug, Clone, Copy, PartialEq, Eq, PartialOrd, Ord, Structural)]
pub enum CompactionStage {
    /// Stage 0: Full messages, no compression.
    Verbatim,
    /// Stage 1: Drop social filler (greetings, acks) but keep substantive content.
    SelectiveTrim,
    /// Stage 2: Apply entropy-based compression (~60% ratio).
    SemanticCompress,
    /// Stage 3: Reduce each message to its topic sentence.
    TopicExtract,
    /// Stage 4: Collapse entire conversation to a structural outline.
    Skeleton,
}

/// The system message: the prompt itself when it fits the budget, else its
/// first `4 * budget` characters.
pub open spec fn system_content(prompt: Seq<char>, budget: nat) -> Seq<char> {
    if tokens_for_bytes(utf8(prompt).len()) <= budget {
        prompt
    } else if prompt.len() <= 4 * budget {
        prompt
    } else {
        prompt.take((4 * budget) as int)
    }
}

/// How many of the newest messages fit into `avail` tokens when taken
/// newest first, stopping at the first that does not fit.
pub open spec fn fitting_suffix(ms: Seq<MsgView>, avail: int) -> nat
    decreases ms.len(),
{
    if ms.len() == 0 || msg_tokens(ms.last()) > avail {
        0
    } else {
        1 + fitting_suffix(ms.drop_last(), avail - msg_tokens(ms.last()))
    }
}

/// The messages assembled before the final pruning: the system prompt, the
/// memories when non-empty and they fit, then the newest history that fits.
pub open spec fn assembled(
    level: ComplexityLevel,
    prompt: Seq<char>,
    memories: Seq<char>,
    history: Seq<MsgView>,
) -> Seq<MsgView> {
    let budget = budget_of(level);
    let sys = system_content(prompt, budget);
    let used0 = tokens_for_bytes(utf8(sys).len());
    let mem_fits = memories.len() > 0 && used0 + tokens_for_bytes(utf8(memories).len()) <= budget;
    let head = if mem_fits {
        seq![("system"@, sys), ("system"@, memories)]
    } else {
        seq![("system"@, sys)]
    };
    let used1 = if mem_fits {
        used0 + tokens_for_bytes(utf8(memories).len())
    } else {
        used0
    };
    let k = fitting_suffix(history, budget - used1);
    head + history.subrange(history.len() - k, history.len() as int)
}

/// The context for a turn: the assembled messages, soft-trimmed to the
/// budget (keeping at most the ten newest non-system messages) when they
/// exceed it.
pub open spec fn context_for(
    level: ComplexityLevel,
    prompt: Seq<char>,
    memories: Seq<char>,
    history: Seq<MsgView>,
) -> Seq<MsgView> {
    let a = assembled(level, prompt, memories, history);
    if total_tokens(a) > budget_of(level) {
        soft_trimmed(a, budget_of(level) as int, 10)
    } else {
        a
    }
}

/// Assembles context messages within the token budget for the given complexity level.
#[verifier::rlimit(40)]
pub fn build_context(
    level: ComplexityLevel,
    system_prompt: &str,
    memories: &str,
    history: &[Message],
) -> (r: Vec<Message>)
    requires
        total_tokens(views(history@)) <= usize::MAX / 2,
    ensures
        views(r@) == context_for(level, system_prompt@, memories@, views(history@)),
{
    let ghost hv = views(history@);
    let budget = token_budget(level);
    let mut messages: Vec<Message> = Vec::new();
    let sys_tokens = estimate_tokens(system_prompt);
    let sys = if sys_tokens <= budget {
        system_prompt.to_owned()
    } else {
        let max_chars = budget * 4;
        let chars = to_chars(system_prompt);
        if chars.len() <= max_chars {
            from_chars(chars.as_slice())
        } else {
            from_chars(sub_chars(chars.as_slice(), 0, max_chars).as_slice())
        }
    };
    assert(sys@ == system_content(system_prompt@, budget as nat)) by {
        assert(system_prompt@.take(system_prompt@.len() as int) =~= system_prompt@);
    }
    let mut used = estimate_tokens(sys.as_str());
    proof {
        lemma_tokens_of_system(system_prompt@, budget as nat);
    }
    messages.push(Message { role: "system".to_owned(), content: sys });
    let mem_tokens = estimate_tokens(memories);
    let mem_fits = !memories.is_empty() && used + mem_tokens <= budget;
    if mem_fits {
        messages.push(Message { role: "system".to_owned(), content: memories.to_owned() });
        used = used + mem_tokens;
    }
    let ghost head = views(messages@);
    // newest history first, stopping at the first message that does not fit
    let n = history.len();
    let mut k: usize = 0;
    let mut history_tokens: usize = 0;
    let mut open = true;
    assert(hv.subrange(0, n as int) =~= hv);
    while open && k < n
        invariant
            hv == views(history@),
            n == hv.len(),
            total_tokens(hv) <= usize::MAX / 2,
            0 <= k <= n,
            budget == budget_of(level),
            budget <= 32_000,
            used <= 4 * 32_000 + 1,
            history_tokens == total_tokens(hv.subrange(n - k, n as int)),
            history_tokens <= total_tokens(hv),
            open ==> fitting_suffix(hv, budget - used) == k + fitting_suffix(
                hv.subrange(0, n - k),
                budget - used - history_tokens,
            ),
            !open ==> fitting_suffix(hv, budget - used) == k,
        decreases (n - k) * 2 + if open {
            1int
        } else {
            0int
        },
    {
        let ghost pre = hv.subrange(0, n - k);
        let m = &history[n - 1 - k];
        let t = estimate_tokens(m.content.as_str());
        proof {
            lemma_total_tokens_suffix_step(hv, n as int, k as int);
            lemma_total_suffix(hv, n - k - 1);
        }
        assert(pre.last() == msg_view(*m));
        assert(pre.drop_last() =~= hv.subrange(0, n - k - 1));
        if used + history_tokens + t > budget {
            open = false;
        } else {
            history_tokens = history_tokens + t;
            k = k + 1;
        }
    }
    proof {
        if open {
            assert(hv.subrange(0, n - k) =~= Seq::<MsgView>::empty());
        }
    }
    let mut j: usize = n - k;
    while j < n
        invariant
            hv == views(history@),
            n == hv.len(),
            0 <= n - k <= j <= n,
            views(messages@) == head + hv.subrange(n - k, j as int),
        decreases n - j,
    {
        let ghost before = views(messages@);
        messages.push(history[j].clone());
        assert(views(messages@) =~= before.push(hv[j as int]));
        assert(hv.subrange(n - k, j + 1) =~= hv.subrange(n - k, j as int).push(hv[j as int]));
        j = j + 1;
    }
    assert(views(messages@) =~= assembled(level, system_prompt@, memories@, hv));
    proof {
        lemma_total_suffix(hv, n - k);
        lemma_total_concat(head, hv.subrange(n - k, n as int));
        if mem_fits {
            assert(head =~= seq![("system"@, sys@)] + seq![("system"@, memories@)]);
            lemma_total_concat(seq![("system"@, sys@)], seq![("system"@, memories@)]);
            lemma_total_single(("system"@, sys@));
            lemma_total_single(("system"@, memories@));
        } else {
            assert(head =~= seq![("system"@, sys@)]);
            lemma_total_single(("system"@, sys@));
        }
    }
    let total = count_tokens(messages.as_slice());
    if total > budget {
        return soft_trim(messages.as_slice(), budget, 10).messages;
    }
    messages
}

/// A character takes at most four bytes.
pub proof fn lemma_utf8_len_bound(s: Seq<char>)
    ensures
        utf8(s).len() <= 4 * s.len(),
    decreases s.len(),
{
    if s.len() > 0 {
        lemma_utf8_len_bound(s.drop_first());
        let c = s[0] as u32;
        assert(vstd::utf8::encode_scalar(c).len() <= 4);
    }
}

proof fn lemma_tokens_of_system(prompt: Seq<char>, budget: nat)
    requires
        budget <= 32_000,
    ensures
        tokens_for_bytes(utf8(system_content(prompt, budget)).len()) <= 4 * budget + 1,
{
    let sys = system_content(prompt, budget);
    if tokens_for_bytes(utf8(prompt).len()) > budget {
        lemma_utf8_len_bound(sys);
        if prompt.len() > 4 * budget {
            assert(sys.len() == 4 * budget);
        }
    }
}

pub proof fn lemma_total_concat(a: Seq<MsgView>, b: Seq<MsgView>)
    ensures
        total_tokens(a + b) == total_tokens(a) + total_tokens(b),
    decreases b.len(),
{
    if b.len() == 0 {
        assert(a + b =~= a);
    } else {
        lemma_total_concat(a, b.drop_last());
        assert((a + b).drop_last() =~= a + b.drop_last());
        assert((a + b).last() == b.last());
    }
}

proof fn lemma_total_suffix(hv: Seq<MsgView>, j: int)
    requires
        0 <= j <= hv.len(),
    ensures
        total_tokens(hv.subrange(j, hv.len() as int)) <= total_tokens(hv),
        total_tokens(hv.subrange(0, j)) + total_tokens(hv.subrange(j, hv.len() as int))
            == total_tokens(hv),
{
    lemma_total_concat(hv.subrange(0, j), hv.subrange(j, hv.len() as int));
    assert(hv.subrange(0, j) + hv.subrange(j, hv.len() as int) =~= hv);
}

proof fn lemma_total_tokens_suffix_step(hv: Seq<MsgView>, n: int, k: int)
    requires
        n == hv.len(),
        0 <= k < n,
    ensures
        total_tokens(hv.subrange(n - k - 1, n)) == total_tokens(hv.subrange(n - k, n)) + msg_tokens(
            hv[n - k - 1],
        ),
{
    lemma_total_concat(seq![hv[n - k - 1]], hv.subrange(n - k, n));
    assert(seq![hv[n - k - 1]] + hv.subrange(n - k, n) =~= hv.subrange(n - k - 1, n));
    lemma_total_single(hv[n - k - 1]);
}

proof fn lemma_total_single(m: MsgView)
    ensures
        total_tokens(seq![m]) == msg_tokens(m),
{
    assert(seq![m].drop_last() =~= Seq::<MsgView>::empty());
    assert(seq![m].last() == m);
    assert(total_tokens(Seq::<MsgView>::empty()) == 0);
}

// ── Pruning ─────────────────────────────────────────────────────

#[derive(Debug)]
pub struct PruningResult {
    pub messages: Vec<Message>,
    pub trimmed_count: usize,
    pub compaction_summary: Option<String>,
    pub total_tokens: usize,
}

/// The newest messages of `ms` that fit into `avail` tokens, taken newest
/// first and skipping any single message that does not fit, in their
/// original order.
pub open spec fn keep_fitting(ms: Seq<MsgView>, avail: int) -> Seq<MsgView>
    decreases ms.len(),
{
    if ms.len() == 0 {
        seq![]
    } else if msg_tokens(ms.last()) <= avail {
        keep_fitting(ms.drop_last(), avail - msg_tokens(ms.last())).push(ms.last())
    } else {
        keep_fitting(ms.drop_last(), avail)
    }
}

pub open spec fn system_msgs(ms: Seq<MsgView>) -> Seq<MsgView> {
    ms.filter(|m: MsgView| is_system(m))
}

pub open spec fn other_msgs(ms: Seq<MsgView>) -> Seq<MsgView> {
    ms.filter(|m: MsgView| !is_system(m))
}

pub open spec fn min_nat(a: nat, b: nat) -> nat {
    if a <= b {
        a
    } else {
        b
    }
}

/// Soft trim to `target` tokens: every system message is kept; of the
/// `preserve_recent` newest other messages, those that fit the tokens the
/// system messages leave are kept; older ones are dropped.
pub open spec fn soft_trimmed(ms: Seq<MsgView>, target: int, preserve_recent: nat) -> Seq<MsgView> {
    let sys = system_msgs(ms);
    let others = other_msgs(ms);
    let pc = min_nat(preserve_recent, others.len());
    let preserved = others.subrange(others.len() - pc, others.len() as int);
    let avail = if target >= total_tokens(sys) {
        target - total_tokens(sys)
    } else {
        0
    };
    sys + keep_fitting(preserved, avail)
}

/// Soft trim: remove oldest non-system messages while preserving the most
/// recent `preserve_recent`, within `target_tokens`.
pub fn soft_trim(messages: &[Message], target_tokens: usize, preserve_recent: usize) -> (r:
    PruningResult)
    requires
        total_tokens(views(messages@)) <= usize::MAX,
    ensures
        views(r.messages@) == soft_trimmed(
            views(messages@),
            target_tokens as int,
            preserve_recent as nat,
        ),
        r.trimmed_count == other_msgs(views(messages@)).len() - (views(r.messages@).len()
            - system_msgs(views(messages@)).len()),
        r.compaction_summary is None,
        r.total_tokens == total_tokens(views(r.messages@)),
{
    let ghost vs = views(messages@);
    let mut sys: Vec<Message> = Vec::new();
    let mut others: Vec<Message> = Vec::new();
    let mut i: usize = 0;
    while i < messages.len()
        invariant
            0 <= i <= messages@.len(),
            vs == views(messages@),
            views(sys@) == system_msgs(vs.take(i as int)),
            views(others@) == other_msgs(vs.take(i as int)),
        decreases messages@.len() - i,
    {
        reveal_with_fuel(Seq::<_>::filter, 1);
        assert(vs.take(i + 1).drop_last() =~= vs.take(i as int));
        assert(vs.take(i + 1).last() == msg_view(messages@[i as int]));
        let ghost s0 = views(sys@);
        let ghost o0 = views(others@);
        if is_system_role(&messages[i]) {
            sys.push(messages[i].clone());
            assert(views(sys@) =~= s0.push(vs[i as int]));
        } else {
            others.push(messages[i].clone());
            assert(views(others@) =~= o0.push(vs[i as int]));
        }
        i = i + 1;
    }
    assert(vs.take(messages@.len() as int) =~= vs);
    proof {
        lemma_filter_tokens(vs);
    }
    let system_tokens = count_tokens(sys.as_slice());
    let ghost ov = views(others@);
    let pc = if preserve_recent < others.len() {
        preserve_recent
    } else {
        others.len()
    };
    let ghost preserved = ov.subrange(ov.len() - pc, ov.len() as int);
    let ghost avail0: int = if target_tokens >= system_tokens {
        target_tokens - system_tokens
    } else {
        0
    };
    let mut available = target_tokens.saturating_sub(system_tokens);
    let mut kept: Vec<Message> = Vec::new();
    let start = others.len() - pc;
    let mut j: usize = others.len();
    while j > start
        invariant
            ov == views(others@),
            start == ov.len() - pc,
            start <= j <= ov.len(),
            preserved == ov.subrange(start as int, ov.len() as int),
            keep_fitting(preserved, avail0) == keep_fitting(
                ov.subrange(start as int, j as int),
                available as int,
            ) + views(kept@),
            total_tokens(views(kept@)) + available <= avail0,
            avail0 <= usize::MAX,
        decreases j,
    {
        let ghost part = ov.subrange(start as int, j as int);
        assert(part.drop_last() =~= ov.subrange(start as int, j - 1));
        assert(part.last() == msg_view(others@[j - 1]));
        let t = estimate_tokens(others[j - 1].content.as_str());
        let ghost k0 = views(kept@);
        if t <= available {
            kept.insert(0, others[j - 1].clone());
            assert(views(kept@) =~= seq![ov[j - 1]] + k0);
            proof {
                lemma_total_concat(seq![ov[j - 1]], k0);
                lemma_total_single(ov[j - 1]);
                assert(ov[j - 1] == msg_view(others@[j - 1]));
            }
            assert(keep_fitting(part.drop_last(), available - t).push(part.last()) + k0 =~= keep_fitting(
                part.drop_last(),
                available - t,
            ) + views(kept@));
            available = available - t;
        }
        j = j - 1;
    }
    assert(ov.subrange(start as int, start as int) =~= Seq::<MsgView>::empty());
    assert(views(kept@) == keep_fitting(preserved, avail0));
    proof {
        lemma_keep_fitting_len(preserved, avail0);
    }
    let kept_len = kept.len();
    let ghost sv = views(sys@);
    let mut result = sys;
    result.append(&mut kept);
    assert(views(result@) =~= sv + keep_fitting(preserved, avail0));
    proof {
        lemma_total_concat(sv, keep_fitting(preserved, avail0));
    }
    let total = count_tokens(result.as_slice());
    PruningResult {
        messages: result,
        trimmed_count: others.len() - kept_len,
        compaction_summary: None,
        total_tokens: total,
    }
}

proof fn lemma_keep_fitting_len(ms: Seq<MsgView>, avail: int)
    ensures
        keep_fitting(ms, avail).len() <= ms.len(),
    decreases ms.len(),
{
    if ms.len() > 0 {
        lemma_keep_fitting_len(ms.drop_last(), avail);
        lemma_keep_fitting_len(ms.drop_last(), avail - msg_tokens(ms.last()));
    }
}

/// The system and the other messages each hold at most the tokens of all.
proof fn lemma_filter_tokens(ms: Seq<MsgView>)
    ensures
        total_tokens(system_msgs(ms)) <= total_tokens(ms),
        total_tokens(other_msgs(ms)) <= total_tokens(ms),
        total_tokens(system_msgs(ms)) + total_tokens(other_msgs(ms)) == total_tokens(ms),
    decreases ms.len(),
{
    reveal_with_fuel(Seq::<_>::filter, 1);
    if ms.len() > 0 {
        lemma_filter_tokens(ms.drop_last());
        let s0 = system_msgs(ms.drop_last());
        let o0 = other_msgs(ms.drop_last());
        if is_system(ms.last()) {
            assert(system_msgs(ms) == s0.push(ms.last()));
            assert(other_msgs(ms) == o0);
            assert(s0.push(ms.last()).drop_last() =~= s0);
        } else {
            assert(other_msgs(ms) == o0.push(ms.last()));
            assert(system_msgs(ms) == s0);
            assert(o0.push(ms.last()).drop_last() =~= o0);
        }
    }
}

// ── Progressive compaction ──────────────────────────────────────

/// Where the topic sentence of a text ends, in bytes: just past the first
/// ". ", else the first ".\n", else the first '?', else the first '!'; with
/// none of them, the first 120 bytes (or the whole text when shorter).
pub open spec fn topic_end(b: Seq<u8>) -> int {
    let period_space = find(b, seq![46u8, 32u8]);
    let period_newline = find(b, seq![46u8, 10u8]);
    let question = find(b, seq![63u8]);
    let bang = find(b, seq![33u8]);
    if period_space >= 0 {
        period_space + 1
    } else if period_newline >= 0 {
        period_newline + 1
    } else if question >= 0 {
        question + 1
    } else if bang >= 0 {
        bang + 1
    } else if b.len() <= 120 {
        b.len() as int
    } else {
        120
    }
}

/// The topic sentence can be cut out of `text`: its end falls on a
/// character boundary. (It always does when the text holds one of the
/// punctuation marks, or is at most 120 bytes long.)
pub open spec fn topic_cut_ok(text: Seq<char>) -> bool {
    is_char_boundary(utf8(text), topic_end(utf8(text)))
}

/// The topic sentence of a text, without surrounding whitespace.
pub open spec fn topic_sentence(text: Seq<char>) -> Seq<char> {
    trim(decode_utf8(utf8(text).subrange(0, topic_end(utf8(text)))))
}

fn first_of(b: &[u8], pat: &[u8]) -> (r: Option<usize>)
    requires
        pat@.len() >= 1,
    ensures
        find(b@, pat@) >= 0 ==> r is Some && r->0 == find(b@, pat@) + 1,
        find(b@, pat@) < 0 ==> r is None,
{
    proof {
        lemma_find_from(b@, pat@, 0);
    }
    match find_in(b, pat) {
        Some(i) => {
            assert(i + pat@.len() <= b@.len());
            assert(b@.len() == b.len());
            Some(i + 1)
        },
        None => None,
    }
}

/// The first sentence of `text` (up to 120 bytes when it has no sentence
/// punctuation), trimmed.
pub fn extract_topic_sentence(text: &str) -> (r: String)
    requires
        topic_cut_ok(text@),
    ensures
        r@ == topic_sentence(text@),
{
    let b = text.as_bytes();
    let ghost w = utf8(text@);
    assert(b@ == w);
    let p1 = vec![46u8, 32u8];
    let p2 = vec![46u8, 10u8];
    let p3 = vec![63u8];
    let p4 = vec![33u8];
    let s1 = p1.as_slice();
    let s2 = p2.as_slice();
    let s3 = p3.as_slice();
    let s4 = p4.as_slice();
    assert(s1@ =~= seq![46u8, 32u8]);
    assert(s2@ =~= seq![46u8, 10u8]);
    assert(s3@ =~= seq![63u8]);
    assert(s4@ =~= seq![33u8]);
    let r1 = first_of(b, s1);
    let r2 = first_of(b, s2);
    let r3 = first_of(b, s3);
    let r4 = first_of(b, s4);
    let end: usize = if let Some(e) = r1 {
        e
    } else if let Some(e) = r2 {
        e
    } else if let Some(e) = r3 {
        e
    } else if let Some(e) = r4 {
        e
    } else if b.len() <= 120 {
        b.len()
    } else {
        120
    };
    assert(end == topic_end(w));
    let head = byte_slice(text, 0, end);
    assert(head@ == decode_utf8(w.subrange(0, end as int))) by {
        broadcast use vstd::utf8::encode_utf8_decode_utf8;

    }
    let chars = to_chars(head);
    let t = trim_chars(chars.as_slice());
    from_chars(t.as_slice())
}

/// The social filler phrases a short message may consist of.
pub open spec fn is_filler_word(s: Seq<char>) -> bool {
    ||| s == "hello"@
    ||| s == "hi"@
    ||| s == "hey"@
    ||| s == "thanks"@
    ||| s == "thank you"@
    ||| s == "ok"@
    ||| s == "okay"@
    ||| s == "sure"@
    ||| s == "got it"@
    ||| s == "sounds good"@
    ||| s == "no problem"@
    ||| s == "np"@
    ||| s == "ack"@
    ||| s == "roger"@
}

/// The social filler phrases, as a list.
pub open spec fn filler_phrases() -> Seq<Seq<char>> {
    seq!["hello"@, "hi"@, "hey"@, "thanks"@, "thank you"@, "ok"@, "okay"@, "sure"@, "got it"@, "sounds good"@, "no problem"@, "np"@, "ack"@, "roger"@]
}

/// Selective trimming drops a message only when it is not a system message,
/// is shorter than 40 bytes, and its trimmed, lowercased content is exactly
/// one of the filler phrases; every other message is kept, in particular one
/// that merely contains a filler phrase among other text. No filler phrase
/// is longer than eleven characters, so a message whose trimmed, lowercased
/// content is longer than that is always kept.
pub proof fn lemma_selective_trim_drops_only_filler(ms: Seq<MsgView>, m: MsgView)
    ensures
        !kept_by_trim(m) <==> (!is_system(m) && utf8(m.1).len() < 40 && filler_phrases().contains(
            lowercase(trim(m.1)),
        )),
        lowercase(trim(m.1)).len() > 11 ==> kept_by_trim(m),
        ms.contains(m) && kept_by_trim(m) ==> selectively_trimmed(ms).contains(m),
        selectively_trimmed(ms).contains(m) ==> ms.contains(m) && kept_by_trim(m),
{
    reveal_strlit("hello");
    reveal_strlit("hi");
    reveal_strlit("hey");
    reveal_strlit("thanks");
    reveal_strlit("thank you");
    reveal_strlit("ok");
    reveal_strlit("okay");
    reveal_strlit("sure");
    reveal_strlit("got it");
    reveal_strlit("sounds good");
    reveal_strlit("no problem");
    reveal_strlit("np");
    reveal_strlit("ack");
    reveal_strlit("roger");
    let s = lowercase(trim(m.1));
    let ps = filler_phrases();
    if is_filler_word(s) {
        let i: int = if s == "hello"@ { 0 } else if s == "hi"@ { 1 } else if s == "hey"@ { 2 }
            else if s == "thanks"@ { 3 } else if s == "thank you"@ { 4 } else if s == "ok"@ { 5 }
            else if s == "okay"@ { 6 } else if s == "sure"@ { 7 } else if s == "got it"@ { 8 }
            else if s == "sounds good"@ { 9 } else if s == "no problem"@ { 10 } else if s == "np"@ { 11 }
            else if s == "ack"@ { 12 } else { 13 };
        assert(ps[i] == s);
        assert(ps.contains(s));
        assert(s.len() <= 11);
    }
    if ps.contains(s) {
        let i = choose|i: int| 0 <= i < ps.len() && ps[i] == s;
        assert(is_filler_word(s));
    }
    let keep = |x: MsgView| kept_by_trim(x);
    if ms.contains(m) && kept_by_trim(m) {
        let i = choose|i: int| 0 <= i < ms.len() && ms[i] == m;
        ms.filter_lemma(keep);
        assert(keep(ms[i]));
    }
    if selectively_trimmed(ms).contains(m) {
        ms.lemma_filter_contains_rev(keep, m);
        let f = ms.filter(keep);
        let i = choose|i: int| 0 <= i < f.len() && f[i] == m;
        ms.filter_lemma(keep);
        assert(keep(f[i]));
    }
}

fn filler_word(s: &str) -> (r: bool)
    ensures
        r == is_filler_word(s@),
{
    str_eq(s, "hello") || str_eq(s, "hi") || str_eq(s, "hey") || str_eq(s, "thanks") || str_eq(s, "thank you") || str_eq(s, "ok") || str_eq(s, "okay") || str_eq(s, "sure") || str_eq(s, "got it") || str_eq(s, "sounds good") || str_eq(s, "no problem") || str_eq(s, "np") || str_eq(s, "ack") || str_eq(s, "roger")
}

/// Selective trimming keeps a message: system messages, messages of at
/// least 40 bytes, and shorter ones that are not, lowercased and trimmed,
/// exactly a filler phrase.
pub open spec fn kept_by_trim(m: MsgView) -> bool {
    is_system(m) || utf8(m.1).len() >= 40 || !is_filler_word(lowercase(trim(m.1)))
}

pub open spec fn selectively_trimmed(ms: Seq<MsgView>) -> Seq<MsgView> {
    ms.filter(|m: MsgView| kept_by_trim(m))
}

fn keeps_message(m: &Message) -> (r: bool)
    ensures
        r == kept_by_trim(msg_view(*m)),
{
    if is_system_role(m) {
        return true;
    }
    if m.content.as_str().as_bytes().len() >= 40 {
        return true;
    }
    let chars = to_chars(m.content.as_str());
    let trimmed = from_chars(trim_chars(chars.as_slice()).as_slice());
    let lower = to_lowercase(trimmed.as_str());
    !filler_word(lower.as_str())
}

/// Stage 1: drop the messages that are pure social filler.
pub fn selective_trim(messages: &[Message]) -> (r: Vec<Message>)
    ensures
        views(r@) == selectively_trimmed(views(messages@)),
{
    let ghost vs = views(messages@);
    let mut out: Vec<Message> = Vec::new();
    let mut i: usize = 0;
    while i < messages.len()
        invariant
            0 <= i <= messages@.len(),
            vs == views(messages@),
            views(out@) == selectively_trimmed(vs.take(i as int)),
        decreases messages@.len() - i,
    {
        reveal_with_fuel(Seq::<_>::filter, 1);
        assert(vs.take(i + 1).drop_last() =~= vs.take(i as int));
        assert(vs.take(i + 1).last() == msg_view(messages@[i as int]));
        let ghost o0 = views(out@);
        if keeps_message(&messages[i]) {
            out.push(messages[i].clone());
            assert(views(out@) =~= o0.push(vs[i as int]));
        }
        i = i + 1;
    }
    assert(vs.take(messages@.len() as int) =~= vs);
    out
}

/// Every message that a topic cut would shorten can be cut.
pub open spec fn topics_cuttable(ms: Seq<MsgView>) -> bool {
    forall|i: int| 0 <= i < ms.len() && !is_system(#[trigger] ms[i]) ==> topic_cut_ok(ms[i].1)
}

pub open spec fn topic_extracted(ms: Seq<MsgView>) -> Seq<MsgView> {
    ms.map_values(
        |m: MsgView|
            if is_system(m) {
                m
            } else {
                (m.0, topic_sentence(m.1))
            },
    )
}

/// Stage 3: reduce each non-system message to its topic sentence.
pub fn topic_extract(messages: &[Message]) -> (r: Vec<Message>)
    requires
        topics_cuttable(views(messages@)),
    ensures
        views(r@) == topic_extracted(views(messages@)),
{
    let ghost vs = views(messages@);
    let mut out: Vec<Message> = Vec::new();
    let mut i: usize = 0;
    while i < messages.len()
        invariant
            0 <= i <= messages@.len(),
            vs == views(messages@),
            topics_cuttable(vs),
            views(out@) == topic_extracted(vs.take(i as int)),
        decreases messages@.len() - i,
    {
        let ghost o0 = views(out@);
        let m = &messages[i];
        assert(vs[i as int] == msg_view(*m));
        if is_system_role(m) {
            out.push(m.clone());
        } else {
            out.push(Message { role: m.role.clone(), content: extract_topic_sentence(m.content.as_str()) });
        }
        assert(views(out@) =~= o0.push(topic_extracted(vs)[i as int]));
        assert(topic_extracted(vs.take(i + 1)) =~= topic_extracted(vs.take(i as int)).push(
            topic_extracted(vs)[i as int],
        ));
        i = i + 1;
    }
    assert(vs.take(messages@.len() as int) =~= vs);
    out
}

/// The outline line of a message: "[role] topic sentence".
pub open spec fn topic_line(m: MsgView) -> Seq<char> {
    "["@ + m.0 + "] "@ + topic_sentence(m.1)
}

/// The outline lines of the non-system messages, in order, leaving out
/// lines of at most 10 bytes.
pub open spec fn skeleton_lines(ms: Seq<MsgView>) -> Seq<Seq<char>>
    decreases ms.len(),
{
    if ms.len() == 0 {
        seq![]
    } else {
        let rest = skeleton_lines(ms.drop_last());
        let m = ms.last();
        if !is_system(m) && utf8(topic_line(m)).len() > 10 {
            rest.push(topic_line(m))
        } else {
            rest
        }
    }
}

/// The system messages, followed (when there is any outline line) by one
/// assistant message holding the conversation outline.
pub open spec fn skeleton(ms: Seq<MsgView>) -> Seq<MsgView> {
    let lines = skeleton_lines(ms);
    if lines.len() == 0 {
        system_msgs(ms)
    } else {
        system_msgs(ms).push(("assistant"@, "[Conversation Skeleton]\n"@ + join(lines, "\n"@)))
    }
}

/// Stage 4: collapse all non-system messages into a single outline.
pub fn skeleton_compress(messages: &[Message]) -> (r: Vec<Message>)
    requires
        topics_cuttable(views(messages@)),
    ensures
        views(r@) == skeleton(views(messages@)),
{
    let ghost vs = views(messages@);
    let mut sys: Vec<Message> = Vec::new();
    let mut lines: Vec<Vec<char>> = Vec::new();
    let mut i: usize = 0;
    while i < messages.len()
        invariant
            0 <= i <= messages@.len(),
            vs == views(messages@),
            topics_cuttable(vs),
            views(sys@) == system_msgs(vs.take(i as int)),
            lines@.map_values(|l: Vec<char>| l@) == skeleton_lines(vs.take(i as int)),
        decreases messages@.len() - i,
    {
        reveal_with_fuel(Seq::<_>::filter, 1);
        assert(vs.take(i + 1).drop_last() =~= vs.take(i as int));
        let m = &messages[i];
        assert(vs.take(i + 1).last() == msg_view(*m));
        assert(vs[i as int] == msg_view(*m));
        let ghost s0 = views(sys@);
        let ghost l0 = lines@.map_values(|l: Vec<char>| l@);
        if is_system_role(m) {
            sys.push(m.clone());
            assert(views(sys@) =~= s0.push(vs[i as int]));
        } else {
            let mut line: Vec<char> = Vec::new();
            push_str(&mut line, "[");
            push_str(&mut line, m.role.as_str());
            push_str(&mut line, "] ");
            let topic = extract_topic_sentence(m.content.as_str());
            push_str(&mut line, topic.as_str());
            assert(line@ == topic_line(msg_view(*m)));
            let as_text = from_chars(line.as_slice());
            if as_text.as_str().as_bytes().len() > 10 {
                lines.push(line);
                assert(lines@.map_values(|l: Vec<char>| l@) =~= l0.push(topic_line(vs[i as int])));
            }
        }
        i = i + 1;
    }
    assert(vs.take(messages@.len() as int) =~= vs);
    if lines.len() == 0 {
        return sys;
    }
    let mut content: Vec<char> = Vec::new();
    push_str(&mut content, "[Conversation Skeleton]\n");
    let mut sep: Vec<char> = Vec::new();
    push_str(&mut sep, "\n");
    let body = join_chars(&lines, sep.as_slice());
    content.extend_from_slice(body.as_slice());
    assert(sep@ =~= "\n"@);
    assert(body@ == join(skeleton_lines(vs), "\n"@));
    assert(content@ =~= "[Conversation Skeleton]\n"@ + join(skeleton_lines(vs), "\n"@));
    let ghost s0 = views(sys@);
    let role = "assistant".to_owned();
    let text = from_chars(content.as_slice());
    assert(role@ == "assistant"@);
    sys.push(Message { role, content: text });
    assert(views(sys@) =~= s0.push(
        ("assistant"@, "[Conversation Skeleton]\n"@ + join(skeleton_lines(vs), "\n"@)),
    ));
    sys
}

/// An entropy-based text compressor, provided by the model layer.
pub trait TextCompressor {
    fn compress(&self, text: &str) -> String;
}

/// Semantic compression rewrites a message: a non-system message of at
/// least 100 bytes.
pub open spec fn semantic_candidate(m: MsgView) -> bool {
    !is_system(m) && utf8(m.1).len() >= 100
}

/// `out` is a semantic compression of `ms`: same length and roles, and
/// every message that is no candidate unchanged.
pub open spec fn semantically_compressed(ms: Seq<MsgView>, out: Seq<MsgView>) -> bool {
    &&& out.len() == ms.len()
    &&& forall|i: int| 0 <= i < ms.len() ==> (#[trigger] out[i]).0 == ms[i].0
    &&& forall|i: int|
        0 <= i < ms.len() && !semantic_candidate(ms[i]) ==> #[trigger] out[i] == ms[i]
}

/// Stage 2: compress each non-system message of at least 100 bytes.
pub fn semantic_compress<C: TextCompressor>(messages: &[Message], compressor: &C) -> (r: Vec<
    Message,
>)
    ensures
        semantically_compressed(views(messages@), views(r@)),
{
    let ghost vs = views(messages@);
    let mut out: Vec<Message> = Vec::new();
    let mut i: usize = 0;
    while i < messages.len()
        invariant
            0 <= i <= messages@.len(),
            vs == views(messages@),
            semantically_compressed(vs.take(i as int), views(out@)),
        decreases messages@.len() - i,
    {
        let m = &messages[i];
        assert(vs[i as int] == msg_view(*m));
        let ghost o0 = views(out@);
        let nm = if is_system_role(m) || m.content.as_str().as_bytes().len() < 100 {
            m.clone()
        } else {
            Message { role: m.role.clone(), content: compressor.compress(m.content.as_str()) }
        };
        assert(msg_view(nm).0 == vs[i as int].0);
        assert(!semantic_candidate(vs[i as int]) ==> msg_view(nm) == vs[i as int]);
        out.push(nm);
        assert(views(out@) =~= o0.push(msg_view(nm)));
        assert forall|j: int| 0 <= j < i + 1 implies #[trigger] views(out@)[j].0 == vs.take(i + 1)[j].0
            && (!semantic_candidate(vs.take(i + 1)[j]) ==> views(out@)[j] == vs.take(i + 1)[j]) by {
            if j < i {
                assert(vs.take(i + 1)[j] == vs.take(i as int)[j]);
                assert(views(out@)[j] == o0[j]);
            }
        }
        i = i + 1;
    }
    assert(vs.take(messages@.len() as int) =~= vs);
    out
}

/// A copy of the messages.
pub fn clone_messages(messages: &[Message]) -> (r: Vec<Message>)
    ensures
        views(r@) == views(messages@),
{
    let mut out: Vec<Message> = Vec::new();
    let mut i: usize = 0;
    while i < messages.len()
        invariant
            0 <= i <= messages@.len(),
            views(out@) == views(messages@).take(i as int),
        decreases messages@.len() - i,
    {
        let ghost o0 = views(out@);
        out.push(messages[i].clone());
        assert(views(out@) =~= o0.push(msg_view(messages@[i as int])));
        assert(views(messages@).take(i + 1) =~= views(messages@).take(i as int).push(
            msg_view(messages@[i as int]),
        ));
        i = i + 1;
    }
    assert(views(messages@).take(messages@.len() as int) =~= views(messages@));
    out
}

/// Apply progressive compaction at the requested stage. System messages are
/// always preserved; higher stages produce shorter output.
pub fn compact_to_stage<C: TextCompressor>(
    messages: &[Message],
    stage: CompactionStage,
    compressor: &C,
) -> (r: Vec<Message>)
    requires
        stage == CompactionStage::TopicExtract || stage == CompactionStage::Skeleton
            ==> topics_cuttable(views(messages@)),
    ensures
        stage == CompactionStage::Verbatim ==> views(r@) == views(messages@),
        stage == CompactionStage::SelectiveTrim ==> views(r@) == selectively_trimmed(
            views(messages@),
        ),
        stage == CompactionStage::SemanticCompress ==> semantically_compressed(
            views(messages@),
            views(r@),
        ),
        stage == CompactionStage::TopicExtract ==> views(r@) == topic_extracted(views(messages@)),
        stage == CompactionStage::Skeleton ==> views(r@) == skeleton(views(messages@)),
{
    match stage {
        CompactionStage::Verbatim => clone_messages(messages),
        CompactionStage::SelectiveTrim => selective_trim(messages),
        CompactionStage::SemanticCompress => semantic_compress(messages, compressor),
        CompactionStage::TopicExtract => topic_extract(messages),
        CompactionStage::Skeleton => skeleton_compress(messages),
    }
}

// ── Anti-fade reminder and conversation summaries ───────────────

/// The index of the last message with the given role, or -1.
pub open spec fn last_index_of_role(ms: Seq<MsgView>, role: Seq<char>) -> int
    decreases ms.len(),
{
    if ms.len() == 0 {
        -1
    } else if ms.last().0 == role {
        ms.len() - 1
    } else {
        last_index_of_role(ms.drop_last(), role)
    }
}

/// Where the reminder goes: just before the last user message, else at the end.
pub open spec fn reminder_position(ms: Seq<MsgView>) -> int {
    let p = last_index_of_role(ms, "user"@);
    if p >= 0 {
        p
    } else {
        ms.len() as int
    }
}

pub proof fn lemma_last_index_of_role(ms: Seq<MsgView>, role: Seq<char>)
    ensures
        -1 <= last_index_of_role(ms, role) < ms.len(),
        last_index_of_role(ms, role) >= 0 ==> ms[last_index_of_role(ms, role)].0 == role,
    decreases ms.len(),
{
    if ms.len() > 0 {
        lemma_last_index_of_role(ms.drop_last(), role);
    }
}

pub fn find_last_role(messages: &[Message], role: &str) -> (r: Option<usize>)
    ensures
        match r {
            Some(i) => i == last_index_of_role(views(messages@), role@),
            None => last_index_of_role(views(messages@), role@) == -1,
        },
{
    let ghost vs = views(messages@);
    let mut j: usize = messages.len();
    assert(vs.take(j as int) =~= vs);
    while j > 0
        invariant
            j <= messages@.len(),
            vs == views(messages@),
            last_index_of_role(vs, role@) == last_index_of_role(vs.take(j as int), role@),
        decreases j,
    {
        assert(vs.take(j as int).drop_last() =~= vs.take(j - 1));
        assert(vs.take(j as int).last() == msg_view(messages@[j - 1]));
        if str_eq(messages[j - 1].role.as_str(), role) {
            return Some(j - 1);
        }
        j = j - 1;
    }
    None
}

fn count_non_system(messages: &Vec<Message>) -> (r: usize)
    ensures
        r == other_msgs(views(messages@)).len(),
{
    let ghost vs = views(messages@);
    let mut count: usize = 0;
    let mut i: usize = 0;
    while i < messages.len()
        invariant
            0 <= i <= messages@.len(),
            vs == views(messages@),
            count == other_msgs(vs.take(i as int)).len(),
            count <= i,
        decreases messages@.len() - i,
    {
        reveal_with_fuel(Seq::<_>::filter, 1);
        assert(vs.take(i + 1).drop_last() =~= vs.take(i as int));
        assert(vs.take(i + 1).last() == msg_view(messages@[i as int]));
        if !is_system_role(&messages[i]) {
            count = count + 1;
        }
        i = i + 1;
    }
    assert(vs.take(messages@.len() as int) =~= vs);
    count
}

/// Inject an instruction reminder just before the last user message (or at
/// the end when there is none) once the conversation has at least
/// `ANTI_FADE_TURN_THRESHOLD` non-system turns. Returns whether it did.
pub fn inject_instruction_reminder(messages: &mut Vec<Message>, reminder: &str) -> (r: bool)
    ensures
        r == (other_msgs(views(old(messages)@)).len() >= ANTI_FADE_TURN_THRESHOLD),
        r ==> views(final(messages)@) == views(old(messages)@).insert(
            reminder_position(views(old(messages)@)),
            ("system"@, reminder@),
        ),
        !r ==> views(final(messages)@) == views(old(messages)@),
{
    let ghost vs = views(messages@);
    let turns = count_non_system(messages);
    if turns < ANTI_FADE_TURN_THRESHOLD {
        return false;
    }
    let pos = match find_last_role(messages.as_slice(), "user") {
        Some(i) => i,
        None => messages.len(),
    };
    proof {
        lemma_last_index_of_role(vs, "user"@);
    }
    assert(pos == reminder_position(vs));
    let role = "system".to_owned();
    assert(role@ == "system"@);
    messages.insert(pos, Message { role, content: reminder.to_owned() });
    assert(views(messages@) =~= vs.insert(pos as int, ("system"@, reminder@)));
    true
}

/// The non-system messages that soft trimming would drop: all but the
/// `preserve_recent` newest.
pub open spec fn trimmable(ms: Seq<MsgView>, preserve_recent: nat) -> Seq<MsgView> {
    let others = other_msgs(ms);
    others.take(others.len() - min_nat(preserve_recent, others.len()))
}

/// Extract the messages that would be trimmed (for summarization).
pub fn extract_trimmable(messages: &[Message], preserve_recent: usize) -> (r: Vec<Message>)
    ensures
        views(r@) == trimmable(views(messages@), preserve_recent as nat),
{
    let ghost vs = views(messages@);
    let mut others: Vec<Message> = Vec::new();
    let mut i: usize = 0;
    while i < messages.len()
        invariant
            0 <= i <= messages@.len(),
            vs == views(messages@),
            views(others@) == other_msgs(vs.take(i as int)),
        decreases messages@.len() - i,
    {
        reveal_with_fuel(Seq::<_>::filter, 1);
        assert(vs.take(i + 1).drop_last() =~= vs.take(i as int));
        assert(vs.take(i + 1).last() == msg_view(messages@[i as int]));
        let ghost o0 = views(others@);
        if !is_system_role(&messages[i]) {
            others.push(messages[i].clone());
            assert(views(others@) =~= o0.push(vs[i as int]));
        }
        i = i + 1;
    }
    assert(vs.take(messages@.len() as int) =~= vs);
    let keep = if preserve_recent < others.len() {
        preserve_recent
    } else {
        others.len()
    };
    let end = others.len() - keep;
    let mut out: Vec<Message> = Vec::new();
    let mut j: usize = 0;
    let ghost ov = views(others@);
    while j < end
        invariant
            0 <= j <= end <= others@.len(),
            ov == views(others@),
            views(out@) == ov.take(j as int),
        decreases end - j,
    {
        let ghost o0 = views(out@);
        out.push(others[j].clone());
        assert(views(out@) =~= o0.push(ov[j as int]));
        assert(ov.take(j + 1) =~= ov.take(j as int).push(ov[j as int]));
        j = j + 1;
    }
    out
}

/// The instructions that open a summarization prompt.
pub const COMPACTION_INSTRUCTIONS: &'static str = "Summarize the following conversation history into a concise paragraph. Capture key facts, decisions, and context. Do not include greetings or filler.\n\n";

/// One "role: content" line per message.
pub open spec fn transcript(ms: Seq<MsgView>) -> Seq<char>
    decreases ms.len(),
{
    if ms.len() == 0 {
        seq![]
    } else {
        transcript(ms.drop_last()) + ms.last().0 + ": "@ + ms.last().1 + "\n"@
    }
}

/// Build a summarization prompt from trimmed messages.
pub fn build_compaction_prompt(trimmed: &[Message]) -> (r: String)
    ensures
        r@ == COMPACTION_INSTRUCTIONS@ + transcript(views(trimmed@)),
{
    let ghost vs = views(trimmed@);
    let mut out: Vec<char> = Vec::new();
    push_str(&mut out, COMPACTION_INSTRUCTIONS);
    let mut i: usize = 0;
    while i < trimmed.len()
        invariant
            0 <= i <= trimmed@.len(),
            vs == views(trimmed@),
            out@ == COMPACTION_INSTRUCTIONS@ + transcript(vs.take(i as int)),
        decreases trimmed@.len() - i,
    {
        assert(vs.take(i + 1).drop_last() =~= vs.take(i as int));
        assert(vs.take(i + 1).last() == msg_view(trimmed@[i as int]));
        push_str(&mut out, trimmed[i].role.as_str());
        push_str(&mut out, ": ");
        push_str(&mut out, trimmed[i].content.as_str());
        push_str(&mut out, "\n");
        assert(out@ =~= COMPACTION_INSTRUCTIONS@ + transcript(vs.take(i + 1)));
        i = i + 1;
    }
    assert(vs.take(trimmed@.len() as int) =~= vs);
    from_chars(out.as_slice())
}

/// The index of the first non-system message (the length when there is none).
pub open spec fn first_non_system(ms: Seq<MsgView>) -> nat
    decreases ms.len(),
{
    if ms.len() == 0 || !is_system(ms[0]) {
        0
    } else {
        1 + first_non_system(ms.drop_first())
    }
}

proof fn lemma_first_non_system(ms: Seq<MsgView>, i: int)
    requires
        0 <= i <= ms.len(),
        forall|j: int| 0 <= j < i ==> is_system(#[trigger] ms[j]),
        i == ms.len() || !is_system(ms[i]),
    ensures
        first_non_system(ms) == i,
    decreases i,
{
    if i > 0 {
        assert forall|j: int| 0 <= j < i - 1 implies is_system(#[trigger] ms.drop_first()[j]) by {
            assert(ms.drop_first()[j] == ms[j + 1]);
        }
        if i < ms.len() {
            assert(ms.drop_first()[i - 1] == ms[i]);
        }
        lemma_first_non_system(ms.drop_first(), i - 1);
    }
}

/// Insert a compaction summary as a system message right after the leading
/// system messages.
pub fn insert_compaction_summary(messages: &mut Vec<Message>, summary: String)
    ensures
        views(final(messages)@) == views(old(messages)@).insert(
            first_non_system(views(old(messages)@)) as int,
            ("system"@, "[Conversation Summary] "@ + summary@),
        ),
{
    let ghost vs = views(messages@);
    let mut pos: usize = 0;
    while pos < messages.len() && is_system_role(&messages[pos])
        invariant
            pos <= messages@.len(),
            vs == views(messages@),
            forall|j: int| 0 <= j < pos ==> is_system(#[trigger] vs[j]),
        decreases messages@.len() - pos,
    {
        pos = pos + 1;
    }
    proof {
        lemma_first_non_system(vs, pos as int);
    }
    let mut content: Vec<char> = Vec::new();
    push_str(&mut content, "[Conversation Summary] ");
    push_str(&mut content, summary.as_str());
    let role = "system".to_owned();
    assert(role@ == "system"@);
    let text = from_chars(content.as_slice());
    messages.insert(pos, Message { role, content: text });
    assert(views(messages@) =~= vs.insert(
        pos as int,
        ("system"@, "[Conversation Summary] "@ + summary@),
    ));
}

/// `out` is `ms` with the long messages compressed: same length and roles;
/// the last user message and every message under 200 bytes unchanged.
pub open spec fn context_compressed(ms: Seq<MsgView>, out: Seq<MsgView>) -> bool {
    let keep = last_index_of_role(ms, "user"@);
    &&& out.len() == ms.len()
    &&& forall|i: int| 0 <= i < ms.len() ==> (#[trigger] out[i]).0 == ms[i].0
    &&& forall|i: int|
        0 <= i < ms.len() && (i == keep || utf8(ms[i].1).len() < 200) ==> #[trigger] out[i]
            == ms[i]
}

/// Whether context compression rewrites the `i`-th message: it is not the
/// last user message and holds at least 200 bytes.
pub open spec fn compressed_here(ms: Seq<MsgView>, i: int) -> bool {
    i != last_index_of_role(ms, "user"@) && utf8(ms[i].1).len() >= 200
}

/// Compress assembled context messages, keeping the most recent user
/// message intact and skipping messages under 200 bytes; each other
/// message's content becomes what `compress` returns for it.
pub fn compress_context<F: Fn(String) -> String>(messages: &mut Vec<Message>, compress: F)
    requires
        forall|s: String| compress.requires((s,)),
    ensures
        context_compressed(views(old(messages)@), views(final(messages)@)),
        forall|i: int|
            0 <= i < old(messages)@.len() && compressed_here(views(old(messages)@), i)
                ==> compress.ensures(
                (old(messages)@[i].content,),
                #[trigger] final(messages)@[i].content,
            ),
{
    let ghost vs = views(messages@);
    let ghost orig = messages@;
    let last_user = find_last_role(messages.as_slice(), "user");
    let n = messages.len();
    let mut i: usize = 0;
    while i < n
        invariant
            0 <= i <= n,
            n == vs.len(),
            n == orig.len(),
            vs == views(orig),
            messages@.len() == n,
            forall|s: String| compress.requires((s,)),
            last_user matches Some(u) ==> u == last_index_of_role(vs, "user"@),
            last_user is None ==> last_index_of_role(vs, "user"@) == -1,
            forall|j: int| i <= j < n ==> #[trigger] messages@[j] == orig[j],
            forall|j: int| 0 <= j < i ==> (#[trigger] views(messages@)[j]).0 == vs[j].0,
            forall|j: int|
                0 <= j < i && (j == last_index_of_role(vs, "user"@) || utf8(vs[j].1).len() < 200)
                    ==> #[trigger] views(messages@)[j] == vs[j],
            forall|j: int|
                0 <= j < i && compressed_here(vs, j) ==> compress.ensures(
                    (orig[j].content,),
                    #[trigger] messages@[j].content,
                ),
        decreases n - i,
    {
        let skip = match last_user {
            Some(u) => u == i,
            None => false,
        };
        assert(vs[i as int] == msg_view(orig[i as int]));
        if !skip && messages[i].content.as_str().as_bytes().len() >= 200 {
            let text = messages[i].content.clone();
            let compressed = compress(text);
            let role = messages[i].role.clone();
            let ghost before = messages@;
            messages.set(i, Message { role, content: compressed });
            assert forall|j: int| 0 <= j < n && j != i implies #[trigger] messages@[j] == before[j] by {
            }
            assert forall|j: int| 0 <= j < n && j != i implies #[trigger] views(messages@)[j]
                == views(before)[j] by {
            }
        }
        i = i + 1;
    }
    assert(views(messages@).len() == vs.len());
}

// ── Laws ────────────────────────────────────────────────────────

proof fn lemma_fitting_suffix_fits(ms: Seq<MsgView>, avail: int)
    ensures
        fitting_suffix(ms, avail) <= ms.len(),
        avail >= 0 ==> total_tokens(
            ms.subrange(ms.len() - fitting_suffix(ms, avail), ms.len() as int),
        ) <= avail,
    decreases ms.len(),
{
    let k = fitting_suffix(ms, avail);
    if ms.len() == 0 || msg_tokens(ms.last()) > avail {
        assert(ms.subrange(ms.len() - k, ms.len() as int) =~= Seq::<MsgView>::empty());
    } else {
        let t = msg_tokens(ms.last());
        let rest = ms.drop_last();
        lemma_fitting_suffix_fits(rest, avail - t);
        let k0 = fitting_suffix(rest, avail - t);
        let tail = ms.subrange(ms.len() - k, ms.len() as int);
        assert(tail.drop_last() =~= rest.subrange(rest.len() - k0, rest.len() as int));
        assert(tail.last() == ms.last());
    }
}

/// The newest-first scan keeps the longest suffix that fits: the suffix it
/// keeps fits (for a non-negative budget), and every longer suffix does not.
pub proof fn lemma_fitting_suffix_largest(ms: Seq<MsgView>, avail: int)
    ensures
        fitting_suffix(ms, avail) <= ms.len(),
        avail >= 0 ==> total_tokens(
            ms.subrange(ms.len() - fitting_suffix(ms, avail), ms.len() as int),
        ) <= avail,
        forall|j: int|
            fitting_suffix(ms, avail) < j <= ms.len() ==> total_tokens(
                #[trigger] ms.subrange(ms.len() - j, ms.len() as int),
            ) > avail,
    decreases ms.len(),
{
    lemma_fitting_suffix_fits(ms, avail);
    if ms.len() > 0 {
        let t = msg_tokens(ms.last());
        let rest = ms.drop_last();
        if t <= avail {
            lemma_fitting_suffix_largest(rest, avail - t);
        }
        assert forall|j: int| fitting_suffix(ms, avail) < j <= ms.len() implies total_tokens(
            #[trigger] ms.subrange(ms.len() - j, ms.len() as int),
        ) > avail by {
            let suf = ms.subrange(ms.len() - j, ms.len() as int);
            assert(suf.last() == ms.last());
            assert(suf.drop_last() =~= rest.subrange(rest.len() - (j - 1), rest.len() as int));
            assert(total_tokens(suf) == total_tokens(suf.drop_last()) + t);
        }
    }
}

/// The context built for a turn stays within the level's token budget
/// whenever the (possibly truncated) system prompt does.
pub proof fn lemma_context_within_budget(
    level: ComplexityLevel,
    prompt: Seq<char>,
    memories: Seq<char>,
    history: Seq<MsgView>,
)
    requires
        tokens_for_bytes(utf8(system_content(prompt, budget_of(level))).len()) <= budget_of(level),
    ensures
        total_tokens(context_for(level, prompt, memories, history)) <= budget_of(level),
{
    let budget = budget_of(level);
    let sys = system_content(prompt, budget);
    let used0 = tokens_for_bytes(utf8(sys).len());
    let mem_fits = memories.len() > 0 && used0 + tokens_for_bytes(utf8(memories).len()) <= budget;
    let used1 = if mem_fits {
        used0 + tokens_for_bytes(utf8(memories).len())
    } else {
        used0
    };
    let head = if mem_fits {
        seq![("system"@, sys), ("system"@, memories)]
    } else {
        seq![("system"@, sys)]
    };
    let k = fitting_suffix(history, budget - used1);
    lemma_fitting_suffix_fits(history, budget - used1);
    let tail = history.subrange(history.len() - k, history.len() as int);
    lemma_total_concat(head, tail);
    if mem_fits {
        assert(head =~= seq![("system"@, sys)] + seq![("system"@, memories)]);
        lemma_total_concat(seq![("system"@, sys)], seq![("system"@, memories)]);
        lemma_total_single(("system"@, memories));
    } else {
        assert(head =~= seq![("system"@, sys)]);
    }
    lemma_total_single(("system"@, sys));
    assert(assembled(level, prompt, memories, history) == head + tail);
}

/// Soft trimming never leaves more than the target, or than the system
/// messages alone when those exceed it.
pub proof fn lemma_soft_trim_bound(ms: Seq<MsgView>, target: int, preserve_recent: nat)
    requires
        target >= 0,
    ensures
        total_tokens(soft_trimmed(ms, target, preserve_recent)) <= if target >= total_tokens(
            system_msgs(ms),
        ) {
            target
        } else {
            total_tokens(system_msgs(ms)) as int
        },
{
    let sys = system_msgs(ms);
    let others = other_msgs(ms);
    let pc = min_nat(preserve_recent, others.len());
    let preserved = others.subrange(others.len() - pc, others.len() as int);
    let avail = if target >= total_tokens(sys) {
        target - total_tokens(sys)
    } else {
        0
    };
    lemma_total_concat(sys, keep_fitting(preserved, avail));
    lemma_keep_fitting_fits(preserved, avail);
}

/// `idx` picks the entries of `a` out of `b`: one index per entry of `a`,
/// each within `b` and holding that entry, in strictly increasing order.
pub open spec fn picks<A>(idx: Seq<int>, a: Seq<A>, b: Seq<A>) -> bool {
    &&& idx.len() == a.len()
    &&& forall|k: int| 0 <= k < idx.len() ==> 0 <= #[trigger] idx[k] < b.len() && a[k] == b[idx[k]]
    &&& forall|k: int, l: int| 0 <= k < l < idx.len() ==> #[trigger] idx[k] < #[trigger] idx[l]
}

/// `a` is `b` with some entries left out and the rest in their order.
pub open spec fn is_subsequence<A>(a: Seq<A>, b: Seq<A>) -> bool {
    exists|idx: Seq<int>| #[trigger] picks(idx, a, b)
}

/// Soft trimming keeps every system message, in order, and after them a
/// selection of the most recent `preserve_recent` other messages, in their
/// order.
pub proof fn lemma_soft_trim_keeps_order(ms: Seq<MsgView>, target: int, preserve_recent: nat)
    ensures
        ({
            let sys = system_msgs(ms);
            let others = other_msgs(ms);
            let pc = min_nat(preserve_recent, others.len());
            let recent = others.subrange(others.len() - pc, others.len() as int);
            let r = soft_trimmed(ms, target, preserve_recent);
            &&& sys.len() <= r.len()
            &&& r.subrange(0, sys.len() as int) == sys
            &&& is_subsequence(r.subrange(sys.len() as int, r.len() as int), recent)
        }),
{
    let sys = system_msgs(ms);
    let others = other_msgs(ms);
    let pc = min_nat(preserve_recent, others.len());
    let recent = others.subrange(others.len() - pc, others.len() as int);
    let avail = if target >= total_tokens(sys) {
        target - total_tokens(sys)
    } else {
        0
    };
    let kept = keep_fitting(recent, avail);
    let r = soft_trimmed(ms, target, preserve_recent);
    assert(r == sys + kept);
    assert(r.subrange(0, sys.len() as int) =~= sys);
    assert(r.subrange(sys.len() as int, r.len() as int) =~= kept);
    let idx = lemma_keep_fitting_picks(recent, avail);
    assert(picks(idx, kept, recent));
}

/// Soft trimming drops a preserved message only when it does not fit: the
/// kept messages are picked in order out of the recent ones, and adding any
/// recent message that was left out to the result would exceed the budget
/// (the target, or the system messages' own tokens when those exceed it).
pub proof fn lemma_soft_trim_drops_only_misfits(ms: Seq<MsgView>, target: int, preserve_recent: nat)
    ensures
        ({
            let sys = system_msgs(ms);
            let others = other_msgs(ms);
            let pc = min_nat(preserve_recent, others.len());
            let recent = others.subrange(others.len() - pc, others.len() as int);
            let r = soft_trimmed(ms, target, preserve_recent);
            let budget = if target >= total_tokens(sys) {
                target
            } else {
                total_tokens(sys) as int
            };
            exists|idx: Seq<int>|
                #[trigger] picks(idx, r.subrange(sys.len() as int, r.len() as int), recent) && forall|j: int|
                    0 <= j < recent.len() && (forall|k: int| 0 <= k < idx.len() ==> idx[k] != j)
                        ==> total_tokens(r) + msg_tokens(#[trigger] recent[j]) > budget
        }),
{
    let sys = system_msgs(ms);
    let others = other_msgs(ms);
    let pc = min_nat(preserve_recent, others.len());
    let recent = others.subrange(others.len() - pc, others.len() as int);
    let avail = if target >= total_tokens(sys) {
        target - total_tokens(sys)
    } else {
        0
    };
    let kept = keep_fitting(recent, avail);
    let r = soft_trimmed(ms, target, preserve_recent);
    assert(r == sys + kept);
    assert(r.subrange(sys.len() as int, r.len() as int) =~= kept);
    lemma_total_concat(sys, kept);
    let idx = lemma_keep_fitting_picks(recent, avail);
    assert(picks(idx, r.subrange(sys.len() as int, r.len() as int), recent));
}

/// The messages that `keep_fitting` keeps, picked out of its input.
proof fn lemma_keep_fitting_picks(ms: Seq<MsgView>, avail: int) -> (idx: Seq<int>)
    ensures
        picks(idx, keep_fitting(ms, avail), ms),
        forall|j: int|
            0 <= j < ms.len() && (forall|k: int| 0 <= k < idx.len() ==> idx[k] != j) ==> total_tokens(
                keep_fitting(ms, avail),
            ) + msg_tokens(#[trigger] ms[j]) > avail,
    decreases ms.len(),
{
    if ms.len() == 0 {
        seq![]
    } else {
        let init = ms.drop_last();
        let t = msg_tokens(ms.last());
        if t <= avail {
            let i0 = lemma_keep_fitting_picks(init, avail - t);
            let k0 = keep_fitting(init, avail - t);
            let kf = keep_fitting(ms, avail);
            assert(kf == k0.push(ms.last()));
            let idx = i0.push(ms.len() - 1);
            assert forall|k: int| 0 <= k < idx.len() implies 0 <= #[trigger] idx[k] < ms.len() && kf[k]
                == ms[idx[k]] by {
                if k < i0.len() {
                    assert(idx[k] == i0[k]);
                    assert(kf[k] == k0[k]);
                    assert(init[i0[k]] == ms[i0[k]]);
                }
            }
            assert forall|k: int, l: int| 0 <= k < l < idx.len() implies #[trigger] idx[k]
                < #[trigger] idx[l] by {
                assert(idx[k] == i0[k]);
                if l < i0.len() {
                    assert(idx[l] == i0[l]);
                }
            }
            assert(kf.drop_last() =~= k0);
            assert(total_tokens(kf) == total_tokens(k0) + t);
            assert forall|j: int|
                0 <= j < ms.len() && (forall|k: int| 0 <= k < idx.len() ==> idx[k] != j) implies total_tokens(
                kf,
            ) + msg_tokens(#[trigger] ms[j]) > avail by {
                assert(idx[idx.len() - 1] != j);
                assert(j < init.len());
                assert forall|k: int| 0 <= k < i0.len() implies i0[k] != j by {
                    assert(idx[k] == i0[k]);
                }
                assert(init[j] == ms[j]);
            }
            idx
        } else {
            let i0 = lemma_keep_fitting_picks(init, avail);
            let kf = keep_fitting(ms, avail);
            assert(kf == keep_fitting(init, avail));
            assert forall|k: int| 0 <= k < i0.len() implies 0 <= #[trigger] i0[k] < ms.len() && kf[k]
                == ms[i0[k]] by {
                assert(init[i0[k]] == ms[i0[k]]);
            }
            assert forall|j: int|
                0 <= j < ms.len() && (forall|k: int| 0 <= k < i0.len() ==> i0[k] != j) implies total_tokens(
                kf,
            ) + msg_tokens(#[trigger] ms[j]) > avail by {
                if j < init.len() {
                    assert(init[j] == ms[j]);
                } else {
                    assert(ms[j] == ms.last());
                }
            }
            i0
        }
    }
}

proof fn lemma_keep_fitting_fits(ms: Seq<MsgView>, avail: int)
    requires
        avail >= 0,
    ensures
        total_tokens(keep_fitting(ms, avail)) <= avail,
    decreases ms.len(),
{
    if ms.len() > 0 {
        let t = msg_tokens(ms.last());
        if t <= avail {
            lemma_keep_fitting_fits(ms.drop_last(), avail - t);
            let kf = keep_fitting(ms.drop_last(), avail - t);
            assert(kf.push(ms.last()).drop_last() =~= kf);
        } else {
            lemma_keep_fitting_fits(ms.drop_last(), avail);
        }
    }
}

/// Compaction never touches the system messages: selective trimming, topic
/// extraction and the skeleton outline all keep exactly the system messages
/// of their input, in order.
pub proof fn lemma_compaction_keeps_system(ms: Seq<MsgView>)
    ensures
        system_msgs(selectively_trimmed(ms)) == system_msgs(ms),
        system_msgs(topic_extracted(ms)) == system_msgs(ms),
        system_msgs(skeleton(ms)) == system_msgs(ms),
    decreases ms.len(),
{
    reveal_with_fuel(Seq::<_>::filter, 1);
    if ms.len() > 0 {
        let rest = ms.drop_last();
        let m = ms.last();
        lemma_compaction_keeps_system(rest);
        // selective trimming
        let st = selectively_trimmed(rest);
        if kept_by_trim(m) {
            assert(selectively_trimmed(ms) == st.push(m));
            assert(st.push(m).drop_last() =~= st);
        } else {
            assert(selectively_trimmed(ms) == st);
        }
        // topic extraction
        let te = topic_extracted(rest);
        assert(topic_extracted(ms) =~= te.push(topic_extracted(ms).last()));
        assert(te.push(topic_extracted(ms).last()).drop_last() =~= te);
        assert(is_system(topic_extracted(ms).last()) == is_system(m));
    }
    // the outline is an assistant message
    reveal_strlit("assistant");
    reveal_strlit("system");
    let sys = system_msgs(ms);
    lemma_system_msgs_of_system(ms);
    let lines = skeleton_lines(ms);
    if lines.len() > 0 {
        let outline = ("assistant"@, "[Conversation Skeleton]\n"@ + join(lines, "\n"@));
        assert(!is_system(outline)) by {
            assert(outline.0[0] != "system"@[0]);
        }
        assert(sys.push(outline).drop_last() =~= sys);
    }
}

/// The system messages of a list of system messages are that list.
proof fn lemma_system_msgs_of_system(ms: Seq<MsgView>)
    ensures
        system_msgs(system_msgs(ms)) == system_msgs(ms),
{
    let sys = system_msgs(ms);
    assert forall|i: int| 0 <= i < sys.len() implies is_system(#[trigger] sys[i]) by {
        ms.lemma_filter_pred(|m: MsgView| is_system(m), i);
    }
    lemma_filter_all(sys);
}

proof fn lemma_filter_all(ms: Seq<MsgView>)
    requires
        forall|i: int| 0 <= i < ms.len() ==> is_system(#[trigger] ms[i]),
    ensures
        system_msgs(ms) == ms,
    decreases ms.len(),
{
    reveal_with_fuel(Seq::<_>::filter, 1);
    if ms.len() > 0 {
        lemma_filter_all(ms.drop_last());
        assert(ms.drop_last().push(ms.last()) =~= ms);
    } else {
        assert(ms =~= Seq::<MsgView>::empty());
    }
}

} // verus!
