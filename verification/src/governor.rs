//! Session maintenance decisions: what is compacted before a session is
//! archived, the summary kept in its place, and how learned skills'
//! priorities move with their record.

use vstd::prelude::*;

use crate::context::{is_system, msg_view, views, CompactionStage, Message, MsgView};
use crate::text::{from_chars, join, join_chars, push_str, str_eq, to_chars};

verus! {

broadcast use vstd::string::group_string_axioms;

/// Messages kept verbatim at the end of a session that is archived.
pub const KEEP_RECENT: usize = 4;

/// The token budget the archived summary aims at.
pub const ARCHIVE_TARGET_TOKENS: usize = 500;

/// How many of the oldest messages are compacted before archiving: all but
/// the four most recent, when that leaves any.
pub fn archive_trim_len(message_count: usize) -> (r: Option<usize>)
    ensures
        message_count <= KEEP_RECENT ==> r is None,
        message_count > KEEP_RECENT ==> r == Some((message_count - KEEP_RECENT) as usize),
{
    if message_count <= KEEP_RECENT {
        None
    } else {
        Some(message_count - KEEP_RECENT)
    }
}

/// The least aggressive stage whose excess over the target (tokens / 500)
/// it handles: up to 1, 1.5, 2.5 and 4 times the target.
pub open spec fn stage_for_tokens(tokens: nat) -> CompactionStage {
    if tokens <= 500 {
        CompactionStage::Verbatim
    } else if tokens <= 750 {
        CompactionStage::SelectiveTrim
    } else if tokens <= 1250 {
        CompactionStage::SemanticCompress
    } else if tokens <= 2000 {
        CompactionStage::TopicExtract
    } else {
        CompactionStage::Skeleton
    }
}

/// The compaction stage for a summary of `tokens` tokens.
pub fn archive_stage(tokens: usize) -> (r: CompactionStage)
    ensures
        r == stage_for_tokens(tokens as nat),
{
    if tokens <= 500 {
        CompactionStage::Verbatim
    } else if tokens <= 750 {
        CompactionStage::SelectiveTrim
    } else if tokens <= 1250 {
        CompactionStage::SemanticCompress
    } else if tokens <= 2000 {
        CompactionStage::TopicExtract
    } else {
        CompactionStage::Skeleton
    }
}

pub open spec fn stage_name(s: CompactionStage) -> Seq<char> {
    match s {
        CompactionStage::Verbatim => "Verbatim"@,
        CompactionStage::SelectiveTrim => "SelectiveTrim"@,
        CompactionStage::SemanticCompress => "SemanticCompress"@,
        CompactionStage::TopicExtract => "TopicExtract"@,
        CompactionStage::Skeleton => "Skeleton"@,
    }
}

fn stage_text(s: CompactionStage) -> (r: &'static str)
    ensures
        r@ == stage_name(s),
{
    match s {
        CompactionStage::Verbatim => "Verbatim",
        CompactionStage::SelectiveTrim => "SelectiveTrim",
        CompactionStage::SemanticCompress => "SemanticCompress",
        CompactionStage::TopicExtract => "TopicExtract",
        CompactionStage::Skeleton => "Skeleton",
    }
}

pub open spec fn summary_line(m: MsgView) -> Seq<char> {
    m.0 + ": "@ + m.1
}

/// The lines of the non-system messages, "role: content".
pub open spec fn summary_lines(ms: Seq<MsgView>) -> Seq<Seq<char>> {
    ms.filter(|m: MsgView| !is_system(m)).map_values(|m: MsgView| summary_line(m))
}

/// The summary's body: the lines of the non-system messages, or, when there
/// are none, the contents of all messages, one per line.
pub open spec fn summary_body(ms: Seq<MsgView>) -> Seq<char> {
    if summary_lines(ms).len() == 0 {
        join(ms.map_values(|m: MsgView| m.1), "\n"@)
    } else {
        join(summary_lines(ms), "\n"@)
    }
}

/// The system message that stands for the compacted messages: a header
/// naming the stage, then the first 2000 characters of the body.
pub open spec fn archive_summary(ms: Seq<MsgView>, stage: CompactionStage) -> Seq<char> {
    let body = summary_body(ms);
    "[Conversation Summary — "@ + stage_name(stage) + "]\n"@ + body.take(
        if body.len() < 2000 {
            body.len() as int
        } else {
            2000
        },
    )
}

/// The summary kept for the compacted messages of an archived session.
pub fn archive_digest(compacted: &[Message], stage: CompactionStage) -> (r: String)
    ensures
        r@ == archive_summary(views(compacted@), stage),
{
    let ghost ms = views(compacted@);
    let ghost keep = |m: MsgView| !is_system(m);
    let mut lines: Vec<Vec<char>> = Vec::new();
    let mut contents: Vec<Vec<char>> = Vec::new();
    let mut i: usize = 0;
    while i < compacted.len()
        invariant
            0 <= i <= compacted@.len(),
            ms == views(compacted@),
            keep == (|m: MsgView| !is_system(m)),
            lines@.map_values(|l: Vec<char>| l@) == ms.take(i as int).filter(keep).map_values(
                |m: MsgView| summary_line(m),
            ),
            contents@.map_values(|l: Vec<char>| l@) == ms.take(i as int).map_values(
                |m: MsgView| m.1,
            ),
        decreases compacted@.len() - i,
    {
        reveal_with_fuel(Seq::<_>::filter, 1);
        let m = &compacted[i];
        assert(ms[i as int] == msg_view(*m));
        assert(ms.take(i + 1).drop_last() =~= ms.take(i as int));
        let ghost l0 = lines@.map_values(|l: Vec<char>| l@);
        proof {
            reveal_strlit(": ");
        }
        let ghost f0 = ms.take(i as int).filter(keep);
        if !str_eq(m.role.as_str(), "system") {
            let mut line = to_chars(m.role.as_str());
            push_str(&mut line, ": ");
            push_str(&mut line, m.content.as_str());
            assert(line@ == summary_line(ms[i as int]));
            lines.push(line);
            assert(ms.take(i + 1).filter(keep) == f0.push(ms[i as int]));
            assert(lines@.map_values(|l: Vec<char>| l@) =~= l0.push(summary_line(ms[i as int])));
            assert(f0.push(ms[i as int]).map_values(|m: MsgView| summary_line(m)) =~= f0.map_values(
                |m: MsgView| summary_line(m),
            ).push(summary_line(ms[i as int])));
            assert(lines@.map_values(|l: Vec<char>| l@) =~= f0.push(ms[i as int]).map_values(
                |m: MsgView| summary_line(m),
            ));
        } else {
            assert(ms.take(i + 1).filter(keep) == f0);
            assert(lines@.map_values(|l: Vec<char>| l@) =~= l0);
        }
        let ghost c0 = contents@.map_values(|l: Vec<char>| l@);
        contents.push(to_chars(m.content.as_str()));
        assert(contents@.map_values(|l: Vec<char>| l@) =~= c0.push(ms[i as int].1));
        assert(ms.take(i + 1).map_values(|m: MsgView| m.1) =~= ms.take(i as int).map_values(
            |m: MsgView| m.1,
        ).push(ms[i as int].1));
        i = i + 1;
    }
    assert(ms.take(compacted@.len() as int) =~= ms);
    let newline = vec!['\n'];
    proof {
        reveal_strlit("\n");
        assert(newline@ =~= "\n"@);
    }
    let body = if lines.len() == 0 {
        join_chars(&contents, newline.as_slice())
    } else {
        join_chars(&lines, newline.as_slice())
    };
    let mut out: Vec<char> = Vec::new();
    push_str(&mut out, "[Conversation Summary — ");
    push_str(&mut out, stage_text(stage));
    push_str(&mut out, "]\n");
    let limit: usize = if body.len() < 2000 {
        body.len()
    } else {
        2000
    };
    let ghost head = out@;
    let mut k: usize = 0;
    while k < limit
        invariant
            0 <= k <= limit <= body@.len(),
            out@ == head + body@.take(k as int),
        decreases limit - k,
    {
        out.push(body[k]);
        assert(body@.take(k + 1) =~= body@.take(k as int).push(body@[k as int]));
        k = k + 1;
    }
    from_chars(out.as_slice())
}

/// A learned skill's new priority, when its record calls for one: more than
/// five uses with a success ratio above 80% raise it by `boost` (to at most
/// 100); more failures than successes lower it by `decay` (to at least 0).
/// A priority that would not change is no adjustment.
pub open spec fn priority_adjustment(
    priority: int,
    successes: int,
    failures: int,
    boost: int,
    decay: int,
) -> Option<int> {
    let total = successes + failures;
    let new_priority = if total > 5 && 5 * successes > 4 * total {
        Some(if priority + boost < 100 { priority + boost } else { 100 })
    } else if failures > successes {
        Some(if priority - decay > 0 { priority - decay } else { 0 })
    } else {
        None
    };
    match new_priority {
        Some(p) => if p != priority {
            Some(p)
        } else {
            None
        },
        None => None,
    }
}

/// The new priority of a learned skill from its success and failure counts.
pub fn adjust_priority(priority: i64, success_count: i64, failure_count: i64, boost: u32, decay: u32) -> (r:
    Option<i64>)
    requires
        i64::MIN <= success_count + failure_count <= i64::MAX,
        i64::MIN + decay <= priority <= i64::MAX - boost,
    ensures
        match priority_adjustment(
            priority as int,
            success_count as int,
            failure_count as int,
            boost as int,
            decay as int,
        ) {
            Some(p) => r == Some(p as i64),
            None => r is None,
        },
{
    let total = success_count + failure_count;
    let reliable = total > 5 && (success_count as i128) * 5 > (total as i128) * 4;
    let new_priority = if reliable {
        let raised = priority + boost as i64;
        if raised < 100 {
            raised
        } else {
            100
        }
    } else if failure_count > success_count {
        let lowered = priority - decay as i64;
        if lowered > 0 {
            lowered
        } else {
            0
        }
    } else {
        return None;
    };
    if new_priority != priority {
        Some(new_priority)
    } else {
        None
    }
}

} // verus!
