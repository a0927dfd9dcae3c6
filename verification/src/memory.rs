//! Memory budgets and post-turn memory routing: which tiers a completed
//! turn is written to, and what is written.

use vstd::prelude::*;

use crate::text::{contains, contains_str, lemma_utf8_concat, from_chars, lowercase, push_str, to_chars, to_lowercase, utf8};
use crate::utf8_text::{byte_slice_string, floor_boundary, floor_char_boundary, lemma_floor_boundary};

verus! {

broadcast use {
    vstd::string::group_string_axioms,
    vstd::utf8::encode_utf8_valid_utf8,
    vstd::utf8::is_char_boundary_start_end_of_seq,
};

#[derive(Debug, Clone, PartialEq, Eq, Structural)]
pub struct MemoryBudgets {
    pub working: usize,
    pub episodic: usize,
    pub semantic: usize,
    pub procedural: usize,
    pub relationship: usize,
}

impl MemoryBudgets {
    /// The budgets for the given per-tier shares of `total_tokens`: whatever
    /// the shares leave undistributed goes to working memory.
    pub fn from_shares(
        total_tokens: usize,
        working: usize,
        episodic: usize,
        semantic: usize,
        procedural: usize,
        relationship: usize,
    ) -> (r: MemoryBudgets)
        requires
            working + episodic + semantic + procedural + relationship <= usize::MAX,
        ensures
            ({
                let allocated = working + episodic + semantic + procedural + relationship;
                let rollover = if total_tokens >= allocated {
                    total_tokens - allocated
                } else {
                    0
                };
                &&& r.working == working + rollover
                &&& r.episodic == episodic
                &&& r.semantic == semantic
                &&& r.procedural == procedural
                &&& r.relationship == relationship
            }),
    {
        let allocated = working + episodic + semantic + procedural + relationship;
        let rollover = total_tokens.saturating_sub(allocated);
        MemoryBudgets { working: working + rollover, episodic, semantic, procedural, relationship }
    }

    /// The sum of all tier budgets.
    pub open spec fn total(self) -> int {
        self.working + self.episodic + self.semantic + self.procedural + self.relationship
    }
}

/// When the shares do not exceed the total, the budgets distribute exactly
/// the total.
pub proof fn lemma_budgets_distribute_total(
    total_tokens: usize,
    working: usize,
    episodic: usize,
    semantic: usize,
    procedural: usize,
    relationship: usize,
    r: MemoryBudgets,
)
    requires
        working + episodic + semantic + procedural + relationship <= total_tokens,
        r.working == working + (total_tokens - (working + episodic + semantic + procedural
            + relationship)),
        r.episodic == episodic,
        r.semantic == semantic,
        r.procedural == procedural,
        r.relationship == relationship,
    ensures
        r.total() == total_tokens,
{
}

/// Classifies the type of a conversational turn for memory routing.
#[derive(Debug, Clone, Copy, PartialEq, Eq, Structural)]
pub enum TurnType {
    Reasoning,
    ToolUse,
    Creative,
    Financial,
    Social,
}

pub open spec fn flag(b: bool) -> nat {
    if b {
        1
    } else {
        0
    }
}

/// How many financial keywords the lowercase user message holds.
pub open spec fn financial_hits(lower: Seq<char>) -> nat {
    flag(contains(lower, "transfer"@)) + flag(contains(lower, "balance"@)) + flag(
        contains(lower, "wallet"@),
    ) + flag(contains(lower, "payment"@)) + flag(contains(lower, "usdc"@)) + flag(
        contains(lower, "send funds"@),
    )
}

pub open spec fn is_social(lower: Seq<char>) -> bool {
    contains(lower, "hello"@) || contains(lower, "thanks"@) || contains(lower, "please"@)
        || contains(lower, "how are you"@)
}

pub open spec fn is_creative(lower: Seq<char>) -> bool {
    contains(lower, "write a"@) || contains(lower, "create a"@) || contains(lower, "design a"@)
        || contains(lower, "compose a"@) || contains(lower, "draw"@) || contains(lower, "generate a"@)
}

/// The turn type: tool use whenever a tool ran; financial when the user's
/// message holds at least two financial keywords; then social, creative or
/// reasoning by keywords of the whole exchange.
pub open spec fn turn_type(user: Seq<char>, assistant: Seq<char>, tools: nat) -> TurnType {
    let combined = lowercase(user + " "@ + assistant);
    if tools > 0 {
        TurnType::ToolUse
    } else if financial_hits(lowercase(user)) >= 2 {
        TurnType::Financial
    } else if is_social(combined) {
        TurnType::Social
    } else if is_creative(combined) {
        TurnType::Creative
    } else {
        TurnType::Reasoning
    }
}

/// The keywords that mark a money-related request.
pub open spec fn financial_keywords() -> Seq<Seq<char>> {
    seq!["transfer"@, "balance"@, "wallet"@, "payment"@, "usdc"@, "send funds"@]
}

/// Two different financial keywords occur in the lowercase text.
pub open spec fn two_financial_keywords(lower: Seq<char>) -> bool {
    exists|i: int, j: int|
        0 <= i < j < 6 && #[trigger] contains(lower, financial_keywords()[i]) && #[trigger] contains(
            lower,
            financial_keywords()[j],
        )
}

/// A turn without tool results is financial exactly when the lowercased user
/// message holds at least two different financial keywords; one keyword
/// alone, with no social or creative phrase in the exchange, leaves it a
/// reasoning turn. A turn with tool results is always tool use.
pub proof fn lemma_turn_classification(user: Seq<char>, assistant: Seq<char>, tools: nat)
    ensures
        tools > 0 ==> turn_type(user, assistant, tools) == TurnType::ToolUse,
        tools == 0 ==> (turn_type(user, assistant, tools) == TurnType::Financial
            <==> two_financial_keywords(lowercase(user))),
        ({
            let combined = lowercase(user + " "@ + assistant);
            tools == 0 && !two_financial_keywords(lowercase(user)) && !is_social(combined)
                && !is_creative(combined) ==> turn_type(user, assistant, tools) == TurnType::Reasoning
        }),
{
    let l = lowercase(user);
    let ks = financial_keywords();
    let b0 = contains(l, ks[0]);
    let b1 = contains(l, ks[1]);
    let b2 = contains(l, ks[2]);
    let b3 = contains(l, ks[3]);
    let b4 = contains(l, ks[4]);
    let b5 = contains(l, ks[5]);
    assert(ks[0] == "transfer"@ && ks[1] == "balance"@ && ks[2] == "wallet"@ && ks[3] == "payment"@
        && ks[4] == "usdc"@ && ks[5] == "send funds"@);
    assert(financial_hits(l) == flag(b0) + flag(b1) + flag(b2) + flag(b3) + flag(b4) + flag(b5));
    if financial_hits(l) >= 2 {
        let (i, j) = if b0 && b1 {
            (0int, 1int)
        } else if b0 && b2 {
            (0, 2)
        } else if b0 && b3 {
            (0, 3)
        } else if b0 && b4 {
            (0, 4)
        } else if b0 && b5 {
            (0, 5)
        } else if b1 && b2 {
            (1, 2)
        } else if b1 && b3 {
            (1, 3)
        } else if b1 && b4 {
            (1, 4)
        } else if b1 && b5 {
            (1, 5)
        } else if b2 && b3 {
            (2, 3)
        } else if b2 && b4 {
            (2, 4)
        } else if b2 && b5 {
            (2, 5)
        } else if b3 && b4 {
            (3, 4)
        } else if b3 && b5 {
            (3, 5)
        } else {
            (4, 5)
        };
        assert(contains(l, ks[i]) && contains(l, ks[j]));
        assert(two_financial_keywords(l));
    }
    if two_financial_keywords(l) {
        let (i, j) = choose|i: int, j: int|
            0 <= i < j < 6 && #[trigger] contains(l, financial_keywords()[i]) && #[trigger] contains(
                l,
                financial_keywords()[j],
            );
        assert(financial_hits(l) >= 2) by {
            if i == 0 {
                assert(b0);
            } else if i == 1 {
                assert(b1);
            } else if i == 2 {
                assert(b2);
            } else if i == 3 {
                assert(b3);
            } else {
                assert(b4);
            }
            if j == 1 {
                assert(b1);
            } else if j == 2 {
                assert(b2);
            } else if j == 3 {
                assert(b3);
            } else if j == 4 {
                assert(b4);
            } else {
                assert(b5);
            }
        }
    }
}

fn count(b: bool) -> (r: usize)
    ensures
        r == flag(b),
{
    if b {
        1
    } else {
        0
    }
}

/// Classifies a turn based on user + assistant content and tool results.
pub fn classify_turn(user_msg: &str, assistant_msg: &str, tool_results: &[(String, String)]) -> (r:
    TurnType)
    ensures
        r == turn_type(user_msg@, assistant_msg@, tool_results@.len()),
{
    if tool_results.len() > 0 {
        return TurnType::ToolUse;
    }
    let user_lower = to_lowercase(user_msg);
    let ul = to_chars(user_lower.as_str());
    let hits = count(contains_str(ul.as_slice(), "transfer")) + count(
        contains_str(ul.as_slice(), "balance"),
    ) + count(contains_str(ul.as_slice(), "wallet")) + count(contains_str(ul.as_slice(), "payment"))
        + count(contains_str(ul.as_slice(), "usdc")) + count(
        contains_str(ul.as_slice(), "send funds"),
    );
    if hits >= 2 {
        return TurnType::Financial;
    }
    let mut joined: Vec<char> = Vec::new();
    push_str(&mut joined, user_msg);
    push_str(&mut joined, " ");
    push_str(&mut joined, assistant_msg);
    let joined_s = from_chars(joined.as_slice());
    let combined = to_lowercase(joined_s.as_str());
    let c = to_chars(combined.as_str());
    if contains_str(c.as_slice(), "hello") || contains_str(c.as_slice(), "thanks") || contains_str(
        c.as_slice(),
        "please",
    ) || contains_str(c.as_slice(), "how are you") {
        return TurnType::Social;
    }
    if contains_str(c.as_slice(), "write a") || contains_str(c.as_slice(), "create a")
        || contains_str(c.as_slice(), "design a") || contains_str(c.as_slice(), "compose a")
        || contains_str(c.as_slice(), "draw") || contains_str(c.as_slice(), "generate a") {
        return TurnType::Creative;
    }
    TurnType::Reasoning
}

// ── Post-turn memory ingestion ──────────────────────────────────

/// One write to a memory tier. Semantic entries are stored with
/// confidence 0.6.
#[derive(Debug, Clone, PartialEq, Eq)]
pub enum MemoryWrite {
    Working { entry_type: String, content: String, importance: i32 },
    Episodic { category: String, content: String, importance: i32 },
    Semantic { category: String, key: String, value: String },
    ProceduralSuccess { tool_name: String },
}

/// The working-memory summary of an assistant message: the message, cut
/// to at most 200 bytes at a character boundary when longer.
pub open spec fn summary_of(msg: Seq<char>) -> Seq<u8> {
    if utf8(msg).len() > 200 {
        utf8(msg).subrange(0, floor_boundary(utf8(msg), 200))
    } else {
        utf8(msg)
    }
}

/// The turn summary stored in working memory.
pub fn turn_summary(assistant_msg: &str) -> (r: String)
    ensures
        utf8(r@) == summary_of(assistant_msg@),
        utf8(r@).len() <= 200,
{
    let n = assistant_msg.as_bytes().len();
    if n > 200 {
        let b = floor_char_boundary(assistant_msg, 200);
        proof {
            lemma_floor_boundary(utf8(assistant_msg@), 200);
        }
        byte_slice_string(assistant_msg, 0, b)
    } else {
        assert(utf8(assistant_msg@).subrange(0, n as int) =~= utf8(assistant_msg@));
        byte_slice_string(assistant_msg, 0, n)
    }
}

/// The first eight bytes of the session id when they end at a character
/// boundary, else "unknown" (`str::get(..8)`).
pub open spec fn session_key_part(session_id: Seq<char>) -> Seq<u8> {
    let b = utf8(session_id);
    if b.len() >= 8 && vstd::utf8::is_char_boundary(b, 8) {
        b.subrange(0, 8)
    } else {
        utf8("unknown"@)
    }
}

/// The turn type, and which optional writes it calls for.
pub open spec fn episodic_count(tt: TurnType, n_tools: int) -> int {
    if tt == TurnType::ToolUse {
        n_tools
    } else if tt == TurnType::Financial {
        1
    } else {
        0
    }
}

pub open spec fn wants_semantic(tt: TurnType, assistant: Seq<char>) -> bool {
    utf8(assistant).len() > 100 && (tt == TurnType::Reasoning || tt == TurnType::Creative)
}

/// The `k`-th episodic write of a turn of type `tt`.
pub open spec fn episodic_ok(
    w: MemoryWrite,
    k: int,
    tt: TurnType,
    tools: Seq<(Seq<char>, Seq<char>)>,
    assistant: Seq<char>,
) -> bool {
    w matches MemoryWrite::Episodic { category, content, importance } && if tt
        == TurnType::ToolUse {
        &&& category@ == "tool_use"@
        &&& content@ == "Used tool '"@ + tools[k].0 + "': "@ + tools[k].1
        &&& importance == 7
    } else {
        &&& category@ == "financial"@
        &&& utf8(content@) == utf8("Financial interaction: "@) + summary_of(assistant)
        &&& importance == 8
    }
}

/// The writes that ingesting a completed turn performs, in order: the
/// working-memory summary, the episodic records, the semantic entry when
/// wanted, then one procedural success per tool of a tool-use turn.
pub open spec fn ingestion_plan_ok(
    plan: Seq<MemoryWrite>,
    session_id: Seq<char>,
    user: Seq<char>,
    assistant: Seq<char>,
    tools: Seq<(Seq<char>, Seq<char>)>,
) -> bool {
    let tt = turn_type(user, assistant, tools.len());
    let ne = episodic_count(tt, tools.len() as int);
    let ns = if wants_semantic(tt, assistant) {
        1int
    } else {
        0int
    };
    let np = if tt == TurnType::ToolUse {
        tools.len() as int
    } else {
        0int
    };
    &&& plan.len() == 1 + ne + ns + np
    &&& plan[0] matches MemoryWrite::Working { entry_type, content, importance } && entry_type@
        == "turn_summary"@ && utf8(content@) == summary_of(assistant) && importance == 3
    &&& forall|k: int| 0 <= k < ne ==> episodic_ok(#[trigger] plan[1 + k], k, tt, tools, assistant)
    &&& wants_semantic(tt, assistant) ==> (plan[1 + ne] matches MemoryWrite::Semantic {
        category,
        key,
        value,
    } && category@ == "learned"@ && utf8(key@) == utf8("turn_"@) + session_key_part(session_id)
        && utf8(value@) == summary_of(assistant))
    &&& forall|k: int|
        0 <= k < np ==> (#[trigger] plan[1 + ne + ns + k] matches MemoryWrite::ProceduralSuccess {
            tool_name,
        } && tool_name@ == tools[k].0)
}

/// Plans the ingestion of a completed turn into the memory tiers: working
/// memory always gets the turn summary; episodic memory records tool use or
/// a financial interaction; semantic memory learns from long reasoning or
/// creative answers; procedural memory counts each tool's success.
pub fn plan_turn_ingestion(
    session_id: &str,
    user_msg: &str,
    assistant_msg: &str,
    tool_results: &[(String, String)],
) -> (plan: Vec<MemoryWrite>)
    ensures
        ingestion_plan_ok(
            plan@,
            session_id@,
            user_msg@,
            assistant_msg@,
            tool_results@.map_values(|t: (String, String)| (t.0@, t.1@)),
        ),
{
    let ghost tools = tool_results@.map_values(|t: (String, String)| (t.0@, t.1@));
    let tt = classify_turn(user_msg, assistant_msg, tool_results);
    let summary = turn_summary(assistant_msg);
    let mut episodic: Vec<MemoryWrite> = Vec::new();
    if tt == TurnType::ToolUse {
        let mut i: usize = 0;
        while i < tool_results.len()
            invariant
                0 <= i <= tool_results@.len(),
                tools == tool_results@.map_values(|t: (String, String)| (t.0@, t.1@)),
                tt == TurnType::ToolUse,
                episodic@.len() == i,
                forall|k: int|
                    0 <= k < i ==> episodic_ok(#[trigger] episodic@[k], k, tt, tools, assistant_msg@),
            decreases tool_results@.len() - i,
        {
            let (name, result) = &tool_results[i];
            let mut ev: Vec<char> = Vec::new();
            push_str(&mut ev, "Used tool '");
            push_str(&mut ev, name.as_str());
            push_str(&mut ev, "': ");
            push_str(&mut ev, result.as_str());
            assert(tools[i as int] == (name@, result@));
            assert(ev@ =~= "Used tool '"@ + tools[i as int].0 + "': "@ + tools[i as int].1);
            episodic.push(
                MemoryWrite::Episodic {
                    category: "tool_use".to_owned(),
                    content: from_chars(ev.as_slice()),
                    importance: 7,
                },
            );
            i = i + 1;
        }
    } else if tt == TurnType::Financial {
        let mut ev: Vec<char> = Vec::new();
        push_str(&mut ev, "Financial interaction: ");
        push_str(&mut ev, summary.as_str());
        let content = from_chars(ev.as_slice());
        proof {
            lemma_utf8_concat("Financial interaction: "@, summary@);
        }
        episodic.push(MemoryWrite::Episodic { category: "financial".to_owned(), content, importance: 8 });
    }
    let mut semantic: Vec<MemoryWrite> = Vec::new();
    let wants = assistant_msg.as_bytes().len() > 100 && (tt == TurnType::Reasoning || tt
        == TurnType::Creative);
    if wants {
        let key_part = session_key(session_id);
        let mut key: Vec<char> = Vec::new();
        push_str(&mut key, "turn_");
        push_str(&mut key, key_part.as_str());
        let key_s = from_chars(key.as_slice());
        proof {
            lemma_utf8_concat("turn_"@, key_part@);
        }
        semantic.push(
            MemoryWrite::Semantic { category: "learned".to_owned(), key: key_s, value: summary.clone() },
        );
    }
    let mut procedural: Vec<MemoryWrite> = Vec::new();
    if tt == TurnType::ToolUse {
        let mut i: usize = 0;
        while i < tool_results.len()
            invariant
                0 <= i <= tool_results@.len(),
                tools == tool_results@.map_values(|t: (String, String)| (t.0@, t.1@)),
                procedural@.len() == i,
                forall|k: int|
                    0 <= k < i ==> (#[trigger] procedural@[k] matches MemoryWrite::ProceduralSuccess {
                        tool_name,
                    } && tool_name@ == tools[k].0),
            decreases tool_results@.len() - i,
        {
            let (name, _) = &tool_results[i];
            assert(tools[i as int].0 == name@);
            procedural.push(MemoryWrite::ProceduralSuccess { tool_name: name.clone() });
            i = i + 1;
        }
    }
    let mut plan: Vec<MemoryWrite> = Vec::new();
    plan.push(
        MemoryWrite::Working {
            entry_type: "turn_summary".to_owned(),
            content: summary.clone(),
            importance: 3,
        },
    );
    let ghost w = plan@;
    let ghost e = episodic@;
    let ghost sm = semantic@;
    let ghost pr = procedural@;
    plan.append(&mut episodic);
    plan.append(&mut semantic);
    plan.append(&mut procedural);
    assert(plan@ =~= w + e + sm + pr);
    plan
}

/// `str::get(..8)` of the session id, or "unknown".
fn session_key(session_id: &str) -> (r: String)
    ensures
        utf8(r@) == session_key_part(session_id@),
{
    let n = session_id.as_bytes().len();
    if n >= 8 && session_id.is_char_boundary(8) {
        byte_slice_string(session_id, 0, 8)
    } else {
        "unknown".to_owned()
    }
}

} // verus!
