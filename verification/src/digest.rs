//! Episodic digests: a short summary of a finished session, its key topics
//! and an importance score.

use vstd::prelude::*;

use crate::context::{msg_view, views, Message, MsgView};
use crate::text::{
    decimal, decimal_chars, from_chars, join, join_chars, lines, push_str, signed_decimal,
    signed_decimal_chars, split_lines, to_chars, trim, trim_chars, utf8,
};
use crate::utf8_text::{byte_slice_string, ceil_boundary, ceil_char_boundary, lemma_ceil_boundary};
use vstd::utf8::decode_utf8;

verus! {

broadcast use {
    vstd::string::group_string_axioms,
    vstd::utf8::encode_utf8_valid_utf8,
    vstd::utf8::is_char_boundary_start_end_of_seq,
};

/// A generated summary of a session's key events and outcomes.
#[derive(Debug)]
pub struct EpisodicDigest {
    pub session_id: String,
    pub agent_id: String,
    pub summary: String,
    pub key_topics: Vec<String>,
    pub turn_count: i64,
    pub importance: i32,
}

pub open spec fn min_int(a: int, b: int) -> int {
    if a <= b {
        a
    } else {
        b
    }
}

/// Integer division rounding toward zero, as Rust's `/` does.
pub open spec fn div_toward_zero(a: int, b: int) -> int {
    if a >= 0 {
        a / b
    } else {
        -((-a) / b)
    }
}

/// The importance of a session: 5, plus a fifth of its turns (at most 3),
/// plus its topics (at most 2), capped at 10. Both counts are first taken as
/// `i32`, as the engagement figures are stored.
pub open spec fn importance(turn_count: i64, topic_count: usize) -> int {
    let turn_bonus = min_int(div_toward_zero((turn_count as i32) as int, 5), 3);
    let topic_bonus = min_int((topic_count as i32) as int, 2);
    min_int(5 + turn_bonus + topic_bonus, 10)
}

/// Calculate importance based on session engagement.
pub fn calculate_importance(turn_count: i64, topic_count: usize) -> (r: i32)
    requires
        5 + min_int(div_toward_zero((turn_count as i32) as int, 5), 3) + min_int(
            (topic_count as i32) as int,
            2,
        ) >= i32::MIN,
    ensures
        r == importance(turn_count, topic_count),
{
    let base: i32 = 5;
    let turns: i32 = turn_count as i32;
    let quotient: i32 = turns / 5;
    let turn_bonus: i32 = if quotient < 3 {
        quotient
    } else {
        3
    };
    let topics: i32 = topic_count as i32;
    let topic_bonus: i32 = if topics < 2 {
        topics
    } else {
        2
    };
    let total = base + turn_bonus + topic_bonus;
    if total < 10 {
        total
    } else {
        10
    }
}

/// Where `truncate_str` cuts: the whole text when it fits, else the end of
/// the last character that starts before `max_len`.
pub open spec fn truncate_cut(b: Seq<u8>, max_len: int) -> int {
    if b.len() <= max_len {
        b.len() as int
    } else {
        ceil_boundary(b, max_len)
    }
}

pub open spec fn truncated(s: Seq<char>, max_len: int) -> Seq<char> {
    decode_utf8(utf8(s).subrange(0, truncate_cut(utf8(s), max_len)))
}

/// The prefix of `s` made of the characters that start before byte
/// `max_len` (all of `s` when it is no longer than that).
pub fn truncate_str(s: &str, max_len: usize) -> (r: String)
    ensures
        r@ == truncated(s@, max_len as int),
        utf8(r@) == utf8(s@).subrange(0, truncate_cut(utf8(s@), max_len as int)),
{
    let ghost b = utf8(s@);
    let len = s.as_bytes().len();
    let cut = if len <= max_len {
        len
    } else {
        ceil_char_boundary(s, max_len)
    };
    proof {
        lemma_ceil_boundary(b, max_len as int);
    }
    let r = byte_slice_string(s, 0, cut);
    assert(r@ == decode_utf8(utf8(r@))) by {
        broadcast use vstd::utf8::encode_utf8_decode_utf8;

    }
    r
}

/// The first line of a text (`str::lines().next()`), or nothing.
pub open spec fn first_line(s: Seq<char>) -> Seq<char> {
    if lines(s).len() > 0 {
        lines(s)[0]
    } else {
        seq![]
    }
}

/// The topic a message contributes: the trimmed first line of a user
/// message, when it is non-empty and shorter than 200 bytes.
pub open spec fn topic_of(m: MsgView) -> Option<Seq<char>> {
    let t = trim(first_line(m.1));
    if m.0 == "user"@ && t.len() > 0 && utf8(t).len() < 200 {
        Some(t)
    } else {
        None
    }
}

/// The topics of all messages, in order.
pub open spec fn all_topics(ms: Seq<MsgView>) -> Seq<Seq<char>>
    decreases ms.len(),
{
    if ms.len() == 0 {
        seq![]
    } else {
        match topic_of(ms.last()) {
            Some(t) => all_topics(ms.drop_last()).push(t),
            None => all_topics(ms.drop_last()),
        }
    }
}

/// The key topics of a session: the first five topics.
pub open spec fn key_topics(ms: Seq<MsgView>) -> Seq<Seq<char>> {
    let t = all_topics(ms);
    t.take(min_int(t.len() as int, 5))
}

/// The index of the first message with the given role, or -1.
pub open spec fn first_index_of_role(ms: Seq<MsgView>, role: Seq<char>) -> int
    decreases ms.len(),
{
    if ms.len() == 0 {
        -1
    } else if ms[0].0 == role {
        0
    } else if first_index_of_role(ms.drop_first(), role) < 0 {
        -1
    } else {
        1 + first_index_of_role(ms.drop_first(), role)
    }
}

/// The parts of a digest summary: how the session started (its first user
/// message), how it concluded (its last assistant message), and its length.
pub open spec fn summary_parts(ms: Seq<MsgView>) -> Seq<Seq<char>> {
    let fu = first_index_of_role(ms, "user"@);
    let la = crate::context::last_index_of_role(ms, "assistant"@);
    let started: Seq<Seq<char>> = if fu >= 0 {
        seq!["Started with: "@ + truncated(ms[fu].1, 200)]
    } else {
        seq![]
    };
    let concluded: Seq<Seq<char>> = if la >= 0 {
        seq!["Concluded with: "@ + truncated(ms[la].1, 200)]
    } else {
        seq![]
    };
    started + concluded + seq!["Total turns: "@ + decimal(ms.len())]
}

/// The digest of a session's messages: none for an empty session.
pub open spec fn digest_of(session_id: Seq<char>, agent_id: Seq<char>, ms: Seq<MsgView>, d: EpisodicDigest) -> bool {
    &&& d.session_id@ == session_id
    &&& d.agent_id@ == agent_id
    &&& d.summary@ == join(summary_parts(ms), ". "@)
    &&& d.key_topics@.map_values(|t: String| t@) == key_topics(ms)
    &&& d.turn_count == ms.len()
    &&& d.importance == importance(ms.len() as i64, key_topics(ms).len() as usize)
}

fn first_line_of(s: &str) -> (r: Vec<char>)
    ensures
        r@ == first_line(s@),
{
    let chars = to_chars(s);
    let ls = split_lines(chars.as_slice());
    proof {
        assert(ls@.map_values(|l: Vec<char>| l@).len() == ls@.len());
    }
    if ls.len() > 0 {
        assert(ls@.map_values(|l: Vec<char>| l@)[0] == ls@[0]@);
        crate::text::copy_chars(ls[0].as_slice())
    } else {
        Vec::new()
    }
}

fn message_topic(m: &Message) -> (r: Option<String>)
    ensures
        r is Some <==> topic_of(msg_view(*m)) is Some,
        r is Some ==> topic_of(msg_view(*m)) == Some(r->0@),
{
    if !crate::text::str_eq(m.role.as_str(), "user") {
        return None;
    }
    let first = first_line_of(m.content.as_str());
    let t = trim_chars(first.as_slice());
    if t.len() == 0 {
        return None;
    }
    let ts = from_chars(t.as_slice());
    if ts.as_str().as_bytes().len() >= 200 {
        return None;
    }
    Some(ts)
}

proof fn lemma_first_index_of_role(ms: Seq<MsgView>, role: Seq<char>, i: int)
    requires
        0 <= i <= ms.len(),
        forall|j: int| 0 <= j < i ==> (#[trigger] ms[j]).0 != role,
        i == ms.len() || ms[i].0 == role,
    ensures
        first_index_of_role(ms, role) == if i == ms.len() {
            -1
        } else {
            i
        },
    decreases i,
{
    if i > 0 {
        assert forall|j: int| 0 <= j < i - 1 implies (#[trigger] ms.drop_first()[j]).0 != role by {
            assert(ms.drop_first()[j] == ms[j + 1]);
        }
        if i < ms.len() {
            assert(ms.drop_first()[i - 1] == ms[i]);
        }
        lemma_first_index_of_role(ms.drop_first(), role, i - 1);
    }
}

fn find_first_role(messages: &[Message], role: &str) -> (r: Option<usize>)
    ensures
        match r {
            Some(i) => i == first_index_of_role(views(messages@), role@) && i < messages@.len(),
            None => first_index_of_role(views(messages@), role@) == -1,
        },
{
    let ghost vs = views(messages@);
    let mut i: usize = 0;
    while i < messages.len()
        invariant
            0 <= i <= messages@.len(),
            vs == views(messages@),
            forall|j: int| 0 <= j < i ==> (#[trigger] vs[j]).0 != role@,
        decreases messages@.len() - i,
    {
        assert(vs[i as int] == msg_view(messages@[i as int]));
        if crate::text::str_eq(messages[i].role.as_str(), role) {
            proof {
                lemma_first_index_of_role(vs, role@, i as int);
            }
            return Some(i);
        }
        i = i + 1;
    }
    proof {
        lemma_first_index_of_role(vs, role@, i as int);
    }
    None
}

impl EpisodicDigest {
    /// The digest of a session's message history; none for an empty session.
    pub fn from_messages(session_id: &str, agent_id: &str, messages: &[Message]) -> (r: Option<
        EpisodicDigest,
    >)
        requires
            messages@.len() <= i64::MAX,
        ensures
            r is None <==> messages@.len() == 0,
            r matches Some(d) ==> digest_of(session_id@, agent_id@, views(messages@), d),
    {
        let ghost vs = views(messages@);
        if messages.len() == 0 {
            return None;
        }
        // topics, in order, then the first five
        let mut topics: Vec<String> = Vec::new();
        let mut i: usize = 0;
        while i < messages.len()
            invariant
                0 <= i <= messages@.len(),
                vs == views(messages@),
                topics@.map_values(|t: String| t@) == all_topics(vs.take(i as int)),
            decreases messages@.len() - i,
        {
            assert(vs.take(i + 1).drop_last() =~= vs.take(i as int));
            assert(vs.take(i + 1).last() == msg_view(messages@[i as int]));
            let ghost t0 = topics@.map_values(|t: String| t@);
            match message_topic(&messages[i]) {
                Some(t) => {
                    topics.push(t);
                    assert(topics@.map_values(|t: String| t@) =~= t0.push(topics@.last()@));
                },
                None => {},
            }
            i = i + 1;
        }
        assert(vs.take(messages@.len() as int) =~= vs);
        let ghost all = topics@.map_values(|t: String| t@);
        topics.truncate(5);
        assert(topics@.map_values(|t: String| t@) =~= key_topics(vs)) by {
            assert(all.len() == all_topics(vs).len());
        }
        // summary
        let mut parts: Vec<Vec<char>> = Vec::new();
        let ghost p0: Seq<Seq<char>> = seq![];
        match find_first_role(messages, "user") {
            Some(u) => {
                let mut part: Vec<char> = Vec::new();
                push_str(&mut part, "Started with: ");
                let cut = truncate_str(messages[u].content.as_str(), 200);
                push_str(&mut part, cut.as_str());
                assert(vs[u as int] == msg_view(messages@[u as int]));
                parts.push(part);
            },
            None => {},
        }
        let ghost p1 = parts@.map_values(|l: Vec<char>| l@);
        match crate::context::find_last_role(messages, "assistant") {
            Some(a) => {
                proof {
                    crate::context::lemma_last_index_of_role(vs, "assistant"@);
                }
                let mut part: Vec<char> = Vec::new();
                push_str(&mut part, "Concluded with: ");
                let cut = truncate_str(messages[a].content.as_str(), 200);
                push_str(&mut part, cut.as_str());
                assert(vs[a as int] == msg_view(messages@[a as int]));
                parts.push(part);
            },
            None => {},
        }
        let mut last: Vec<char> = Vec::new();
        push_str(&mut last, "Total turns: ");
        let mut count = decimal_chars(messages.len());
        last.append(&mut count);
        parts.push(last);
        assert(parts@.map_values(|l: Vec<char>| l@) =~= summary_parts(vs));
        let mut sep: Vec<char> = Vec::new();
        push_str(&mut sep, ". ");
        let summary = from_chars(join_chars(&parts, sep.as_slice()).as_slice());
        let turn_count = messages.len() as i64;
        let importance = calculate_importance(turn_count, topics.len());
        Some(EpisodicDigest {
            session_id: session_id.to_owned(),
            agent_id: agent_id.to_owned(),
            summary,
            key_topics: topics,
            turn_count,
            importance,
        })
    }
}

/// The text a digest is stored under in episodic memory.
pub open spec fn memory_text(d: EpisodicDigest) -> Seq<char> {
    "[Session Digest] "@ + d.summary@ + "\nTopics: "@ + join(
        d.key_topics@.map_values(|t: String| t@),
        ", "@,
    ) + "\nTurns: "@ + signed_decimal(d.turn_count as int)
}

impl EpisodicDigest {
    /// The text to store in episodic memory for this digest.
    pub fn memory_content(&self) -> (r: String)
        ensures
            r@ == memory_text(*self),
    {
        let mut topics: Vec<Vec<char>> = Vec::new();
        let mut i: usize = 0;
        while i < self.key_topics.len()
            invariant
                0 <= i <= self.key_topics@.len(),
                topics@.map_values(|l: Vec<char>| l@) == self.key_topics@.map_values(
                    |t: String| t@,
                ).take(i as int),
            decreases self.key_topics@.len() - i,
        {
            let ghost t0 = topics@.map_values(|l: Vec<char>| l@);
            topics.push(to_chars(self.key_topics[i].as_str()));
            assert(topics@.map_values(|l: Vec<char>| l@) =~= t0.push(self.key_topics@[i as int]@));
            assert(self.key_topics@.map_values(|t: String| t@).take(i + 1) =~= self.key_topics@.map_values(
                |t: String| t@,
            ).take(i as int).push(self.key_topics@[i as int]@));
            i = i + 1;
        }
        assert(self.key_topics@.map_values(|t: String| t@).take(self.key_topics@.len() as int)
            =~= self.key_topics@.map_values(|t: String| t@));
        let mut sep: Vec<char> = Vec::new();
        push_str(&mut sep, ", ");
        let mut out: Vec<char> = Vec::new();
        push_str(&mut out, "[Session Digest] ");
        push_str(&mut out, self.summary.as_str());
        push_str(&mut out, "\nTopics: ");
        let mut joined = join_chars(&topics, sep.as_slice());
        out.append(&mut joined);
        push_str(&mut out, "\nTurns: ");
        let mut n = signed_decimal_chars(self.turn_count);
        out.append(&mut n);
        assert(sep@ =~= ", "@);
        assert(out@ =~= memory_text(*self));
        from_chars(out.as_slice())
    }
}

} // verus!
