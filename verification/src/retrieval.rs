//! Memory retrieval and content chunking: the budgeted memory sections put
//! into a prompt, overlapping boundary-aware chunks of a text for
//! embedding, and the token estimate used for budgeting.

use vstd::prelude::*;
use vstd::string::StringSliceAdditionalSpecFns;
use vstd::utf8::*;

use crate::text::{contains, contains_chars, join, join_chars, lowercase, push_str, to_chars, to_lowercase, utf8};
use crate::text::from_chars;
pub use crate::utf8_text::floor_char_boundary;
use crate::utf8_text::{
    byte_slice_string, floor_boundary, lemma_ascii_all_boundaries, lemma_floor_boundary,
    lemma_next_boundary_within_four, lemma_rfind_below, rfind, rfind_in, lemma_after_ascii_is_boundary,
};

verus! {

broadcast use {
    vstd::string::group_string_axioms,
    vstd::utf8::encode_utf8_valid_utf8,
    vstd::utf8::is_char_boundary_start_end_of_seq,
};

/// Rough estimate: one token per four bytes of text, rounded up.
pub open spec fn tokens_for_bytes(n: nat) -> nat {
    (n + 3) / 4
}

/// Rough estimate: ~4 bytes per token, rounded up.
pub fn estimate_tokens(text: &str) -> (r: usize)
    ensures
        r == tokens_for_bytes(utf8(text@).len()),
        r <= usize::MAX / 4 + 1,
{
    let n = text.as_bytes().len();
    n / 4 + if n % 4 == 0 {
        0
    } else {
        1
    }
}

// ── Memory sections ─────────────────────────────────────────────

pub open spec fn line_tokens(line: Seq<char>) -> int {
    tokens_for_bytes(utf8(line).len()) as int
}

/// How many of `lines`, taken in order after `used` tokens, fit into
/// `budget`: the first line that would pass the budget stops the packing.
pub open spec fn lines_fitting(lines: Seq<Seq<char>>, used: int, budget: int) -> nat
    decreases lines.len(),
{
    if lines.len() == 0 {
        0
    } else if used + line_tokens(lines[0]) > budget {
        0
    } else {
        1 + lines_fitting(lines.drop_first(), used + line_tokens(lines[0]), budget)
    }
}

/// The lines one after another.
pub open spec fn concat(lines: Seq<Seq<char>>) -> Seq<char>
    decreases lines.len(),
{
    if lines.len() == 0 {
        seq![]
    } else {
        concat(lines.drop_last()) + lines.last()
    }
}

/// A memory section: the header and the lines that fit the budget (the
/// header's own tokens count); none when the budget is zero or no text
/// was added.
pub open spec fn packed_section(header: Seq<char>, lines: Seq<Seq<char>>, budget: int) -> Option<
    Seq<char>,
> {
    let k = lines_fitting(lines, line_tokens(header), budget);
    if budget == 0 || concat(lines.take(k as int)).len() == 0 {
        None
    } else {
        Some(header + concat(lines.take(k as int)))
    }
}

pub open spec fn string_views(v: Seq<String>) -> Seq<Seq<char>> {
    v.map_values(|s: String| s@)
}

/// Pack a memory section: the header, then the lines in order while they
/// fit into `budget_tokens`.
pub fn budgeted_section(header: &str, lines: &[String], budget_tokens: usize) -> (r: Option<String>)
    ensures
        match packed_section(header@, string_views(lines@), budget_tokens as int) {
            Some(t) => r matches Some(x) && x@ == t,
            None => r is None,
        },
{
    let ghost ls = string_views(lines@);
    if budget_tokens == 0 {
        return None;
    }
    let mut text = to_chars(header);
    let header_len = text.len();
    let mut used = estimate_tokens(header);
    let ghost h = header@;
    let mut i: usize = 0;
    assert(ls.take(0) =~= Seq::<Seq<char>>::empty());
    assert(ls.skip(0) =~= ls);
    while i < lines.len()
        invariant_except_break
            0 <= i <= lines@.len(),
            ls == string_views(lines@),
            header_len == h.len(),
            text@ == h + concat(ls.take(i as int)),
            lines_fitting(ls, line_tokens(h), budget_tokens as int) == i + lines_fitting(
                ls.skip(i as int),
                used as int,
                budget_tokens as int,
            ),
        ensures
            0 <= i <= lines@.len(),
            ls == string_views(lines@),
            header_len == h.len(),
            text@ == h + concat(ls.take(i as int)),
            lines_fitting(ls, line_tokens(h), budget_tokens as int) == i,
        decreases lines@.len() - i,
    {
        let t = estimate_tokens(lines[i].as_str());
        assert(ls.skip(i as int)[0] == ls[i as int]);
        assert(ls[i as int] == lines@[i as int]@);
        if used > budget_tokens || t > budget_tokens - used {
            break;
        }
        let ghost t0 = text@;
        push_str(&mut text, lines[i].as_str());
        assert(ls.skip(i as int).drop_first() =~= ls.skip(i + 1));
        assert(ls.take(i + 1).drop_last() =~= ls.take(i as int));
        assert(ls.take(i + 1).last() == ls[i as int]);
        assert(text@ =~= h + concat(ls.take(i + 1)));
        used = used + t;
        i = i + 1;
    }
    if text.len() == header_len {
        return None;
    }
    Some(from_chars(text.as_slice()))
}

/// ASCII case folding of one character.
pub open spec fn ascii_lower(c: char) -> char {
    if 'A' <= c && c <= 'Z' {
        ((c as u32) + 32) as char
    } else {
        c
    }
}

/// `str::eq_ignore_ascii_case`.
pub open spec fn eq_ignore_ascii_case(a: Seq<char>, b: Seq<char>) -> bool {
    a.len() == b.len() && forall|i: int| 0 <= i < a.len() ==> ascii_lower(a[i]) == ascii_lower(b[i])
}

fn lower_ascii_char(c: char) -> (r: char)
    ensures
        r == ascii_lower(c),
{
    if 'A' <= c && c <= 'Z' {
        ((c as u32) + 32) as u8 as char
    } else {
        c
    }
}

fn eq_ascii_nocase(a: &str, b: &str) -> (r: bool)
    ensures
        r == eq_ignore_ascii_case(a@, b@),
{
    let x = to_chars(a);
    let y = to_chars(b);
    if x.len() != y.len() {
        return false;
    }
    let mut i: usize = 0;
    while i < x.len()
        invariant
            0 <= i <= x@.len(),
            x@ == a@,
            y@ == b@,
            x@.len() == y@.len(),
            forall|j: int| 0 <= j < i ==> ascii_lower(x@[j]) == ascii_lower(y@[j]),
        decreases x@.len() - i,
    {
        if lower_ascii_char(x[i]) != lower_ascii_char(y[i]) {
            return false;
        }
        i = i + 1;
    }
    true
}

/// The working-memory line of an entry.
pub open spec fn working_line(entry_type: Seq<char>, content: Seq<char>) -> Seq<char> {
    "- ["@ + entry_type + "] "@ + content + "\n"@
}

/// Working memory shows each entry but turn summaries, which mirror earlier
/// answers.
pub open spec fn working_lines(entries: Seq<(Seq<char>, Seq<char>)>) -> Seq<Seq<char>>
    decreases entries.len(),
{
    if entries.len() == 0 {
        seq![]
    } else if eq_ignore_ascii_case(entries.last().0, "turn_summary"@) {
        working_lines(entries.drop_last())
    } else {
        working_lines(entries.drop_last()).push(working_line(entries.last().0, entries.last().1))
    }
}

pub open spec fn entry_views(es: Seq<(String, String)>) -> Seq<(Seq<char>, Seq<char>)> {
    es.map_values(|e: (String, String)| (e.0@, e.1@))
}

/// The lines of the working-memory section for entries given as (type,
/// content).
pub fn working_memory_lines(entries: &[(String, String)]) -> (r: Vec<String>)
    ensures
        string_views(r@) == working_lines(entry_views(entries@)),
{
    let ghost es = entry_views(entries@);
    let mut out: Vec<String> = Vec::new();
    let mut i: usize = 0;
    while i < entries.len()
        invariant
            0 <= i <= entries@.len(),
            es == entry_views(entries@),
            string_views(out@) == working_lines(es.take(i as int)),
        decreases entries@.len() - i,
    {
        assert(es.take(i + 1).drop_last() =~= es.take(i as int));
        assert(es.take(i + 1).last() == es[i as int]);
        proof {
            reveal_strlit("turn_summary");
        }
        if !eq_ascii_nocase(entries[i].0.as_str(), "turn_summary") {
            let mut line: Vec<char> = Vec::new();
            push_str(&mut line, "- [");
            push_str(&mut line, entries[i].0.as_str());
            push_str(&mut line, "] ");
            push_str(&mut line, entries[i].1.as_str());
            push_str(&mut line, "\n");
            let ghost o0 = string_views(out@);
            out.push(from_chars(line.as_slice()));
            assert(string_views(out@) =~= o0.push(working_line(es[i as int].0, es[i as int].1)));
        }
        i = i + 1;
    }
    assert(es.take(entries@.len() as int) =~= es);
    out
}

/// An entity is worth showing when it had more than two interactions or the
/// query names it (by id or by name, ignoring case).
pub open spec fn entity_relevant(
    query: Seq<char>,
    entity_id: Seq<char>,
    name: Option<Seq<char>>,
    interactions: i64,
) -> bool {
    ||| interactions > 2
    ||| contains(lowercase(query), lowercase(entity_id))
    ||| (name matches Some(n) && contains(lowercase(query), lowercase(n)))
}

pub fn entity_is_relevant(query: &str, entity_id: &str, name: Option<&str>, interactions: i64) -> (r:
    bool)
    ensures
        r == entity_relevant(
            query@,
            entity_id@,
            match name {
                Some(n) => Some(n@),
                None => None,
            },
            interactions,
        ),
{
    if interactions > 2 {
        return true;
    }
    let q = to_lowercase(query);
    let qv = to_chars(q.as_str());
    let id = to_lowercase(entity_id);
    let idv = to_chars(id.as_str());
    if contains_chars(qv.as_slice(), idv.as_slice()) {
        return true;
    }
    match name {
        Some(n) => {
            let nl = to_lowercase(n);
            let nv = to_chars(nl.as_str());
            contains_chars(qv.as_slice(), nv.as_slice())
        },
        None => false,
    }
}

/// The memory block of a prompt: nothing without sections, else
/// `[Active Memory]` and the sections separated by blank lines.
pub open spec fn active_memory_text(sections: Seq<Seq<char>>) -> Seq<char> {
    if sections.len() == 0 {
        seq![]
    } else {
        "[Active Memory]\n"@ + join(sections, "\n\n"@)
    }
}

pub fn active_memory(sections: &[String]) -> (r: String)
    ensures
        r@ == active_memory_text(string_views(sections@)),
{
    if sections.len() == 0 {
        return String::new();
    }
    let mut parts: Vec<Vec<char>> = Vec::new();
    let mut i: usize = 0;
    while i < sections.len()
        invariant
            0 <= i <= sections@.len(),
            parts@.map_values(|l: Vec<char>| l@) == string_views(sections@).take(i as int),
        decreases sections@.len() - i,
    {
        let ghost p0 = parts@.map_values(|l: Vec<char>| l@);
        parts.push(to_chars(sections[i].as_str()));
        assert(parts@.map_values(|l: Vec<char>| l@) =~= p0.push(sections@[i as int]@));
        assert(string_views(sections@).take(i + 1) =~= string_views(sections@).take(i as int).push(
            sections@[i as int]@,
        ));
        i = i + 1;
    }
    assert(string_views(sections@).take(sections@.len() as int) =~= string_views(sections@));
    let sep = to_chars("\n\n");
    let joined = join_chars(&parts, sep.as_slice());
    let mut out = to_chars("[Active Memory]\n");
    let mut j = joined;
    out.append(&mut j);
    from_chars(out.as_slice())
}

pub struct ChunkConfig {
    pub max_tokens: usize,
    pub overlap_tokens: usize,
}

impl Default for ChunkConfig {
    fn default() -> (r: Self)
        ensures
            r.max_tokens == 512,
            r.overlap_tokens == 64,
    {
        Self { max_tokens: 512, overlap_tokens: 64 }
    }
}

pub struct Chunk {
    pub text: String,
    pub index: usize,
    pub start_char: usize,
    pub end_char: usize,
}

pub open spec fn pat_paragraph() -> Seq<u8> {
    seq![10u8, 10u8]
}

pub open spec fn pat_period_space() -> Seq<u8> {
    seq![46u8, 32u8]
}

pub open spec fn pat_period_newline() -> Seq<u8> {
    seq![46u8, 10u8]
}

pub open spec fn pat_question_space() -> Seq<u8> {
    seq![63u8, 32u8]
}

pub open spec fn pat_bang_space() -> Seq<u8> {
    seq![33u8, 32u8]
}

pub open spec fn pat_space() -> Seq<u8> {
    seq![32u8]
}

/// Where a chunk that may extend to `raw_end` should end: just after the
/// last paragraph break in the second half of the range, else after the last
/// sentence end (". ", ".\n", "? ", "! " in that order of preference), else
/// after the last space, else at `raw_end` itself.
pub open spec fn break_point(b: Seq<u8>, start: int, raw_end: int) -> int {
    if raw_end >= b.len() {
        b.len() as int
    } else {
        let ss = floor_boundary(b, start + (raw_end - start) / 2);
        let w = b.subrange(ss, raw_end);
        if rfind(w, pat_paragraph()) >= 0 {
            ss + rfind(w, pat_paragraph()) + 2
        } else if rfind(w, pat_period_space()) >= 0 {
            ss + rfind(w, pat_period_space()) + 2
        } else if rfind(w, pat_period_newline()) >= 0 {
            ss + rfind(w, pat_period_newline()) + 2
        } else if rfind(w, pat_question_space()) >= 0 {
            ss + rfind(w, pat_question_space()) + 2
        } else if rfind(w, pat_bang_space()) >= 0 {
            ss + rfind(w, pat_bang_space()) + 2
        } else if rfind(w, pat_space()) >= 0 {
            ss + rfind(w, pat_space()) + 1
        } else {
            raw_end
        }
    }
}

pub open spec fn min_int(a: int, b: int) -> int {
    if a <= b {
        a
    } else {
        b
    }
}

/// The spans (start, end) of the chunks produced from `start` on, for a
/// text longer than one chunk: each chunk ends at a break point no later
/// than `max_bytes` after its start, and the next chunk starts `step`
/// bytes later (at most the chunk's length, at least one byte), snapped
/// back to a character boundary.
pub open spec fn chunk_spans(b: Seq<u8>, max_bytes: int, step: int, start: int) -> Seq<(int, int)>
    decreases b.len() - start,
{
    if start >= b.len() || start < 0 {
        seq![]
    } else {
        let raw_end = floor_boundary(b, min_int(start + max_bytes, b.len() as int));
        let end = break_point(b, start, raw_end);
        if end >= b.len() {
            seq![(start, end)]
        } else {
            let advance = if min_int(step, end - start) >= 1 {
                min_int(step, end - start)
            } else {
                1
            };
            let next = floor_boundary(b, start + advance);
            if next <= start || next > b.len() {
                seq![(start, end)]
            } else {
                seq![(start, end)] + chunk_spans(b, max_bytes, step, next)
            }
        }
    }
}

/// The spans of all chunks of a text under the given configuration.
pub open spec fn chunk_layout(b: Seq<u8>, max_tokens: int, overlap_tokens: int) -> Seq<(int, int)> {
    let max_bytes = max_tokens * 4;
    let overlap_bytes = overlap_tokens * 4;
    let step = if max_bytes - overlap_bytes >= 1 {
        max_bytes - overlap_bytes
    } else {
        1
    };
    if b.len() == 0 || max_tokens == 0 {
        seq![]
    } else if b.len() <= max_bytes {
        seq![(0, b.len() as int)]
    } else {
        chunk_spans(b, max_bytes, step, 0)
    }
}

/// The chunker only stalls when the step is shorter than a character: this
/// rules that out.
pub open spec fn chunking_terminates(text: Seq<char>, max_tokens: int, overlap_tokens: int) -> bool {
    ||| max_tokens == 0
    ||| overlap_tokens < max_tokens
    ||| is_ascii_chars(text)
    ||| utf8(text).len() <= max_tokens * 4
}

/// Chunk `c` is the `i`-th chunk and holds exactly the bytes of `span`.
pub open spec fn chunk_is(c: Chunk, i: int, span: (int, int), b: Seq<u8>) -> bool {
    &&& c.index == i
    &&& c.start_char == span.0
    &&& c.end_char == span.1
    &&& utf8(c.text@) == b.subrange(span.0, span.1)
}

/// Split text into overlapping chunks for embedding.
pub fn chunk_text(text: &str, config: &ChunkConfig) -> (chunks: Vec<Chunk>)
    requires
        config.max_tokens <= usize::MAX / 4,
        config.overlap_tokens <= usize::MAX / 4,
        chunking_terminates(text@, config.max_tokens as int, config.overlap_tokens as int),
    ensures
        chunks@.len() == chunk_layout(
            utf8(text@),
            config.max_tokens as int,
            config.overlap_tokens as int,
        ).len(),
        forall|i: int|
            0 <= i < chunks@.len() ==> chunk_is(
                #[trigger] chunks@[i],
                i,
                chunk_layout(utf8(text@), config.max_tokens as int, config.overlap_tokens as int)[i],
                utf8(text@),
            ),
{
    let ghost b = utf8(text@);
    let bytes = text.as_bytes();
    let len = bytes.len();
    if len == 0 || config.max_tokens == 0 {
        return Vec::new();
    }
    let max_bytes = config.max_tokens * 4;
    let overlap_bytes = config.overlap_tokens * 4;

    if len <= max_bytes {
        let mut v = Vec::new();
        v.push(Chunk { text: byte_slice_string(text, 0, len), index: 0, start_char: 0, end_char: len });
        assert(b.subrange(0, len as int) =~= b);
        return v;
    }
    let step = if max_bytes > overlap_bytes {
        max_bytes - overlap_bytes
    } else {
        1
    };
    let ghost layout = chunk_spans(b, max_bytes as int, step as int, 0);
    assert(step >= 4 || is_ascii_chars(text@)) by {
        if config.overlap_tokens < config.max_tokens {
            assert(max_bytes - overlap_bytes == (config.max_tokens - config.overlap_tokens) * 4);
        }
    }
    let mut chunks: Vec<Chunk> = Vec::new();
    let mut start: usize = 0;

    while start < len
        invariant
            b == utf8(text@),
            bytes@ == b,
            len == b.len(),
            max_bytes == config.max_tokens * 4,
            overlap_bytes == config.overlap_tokens * 4,
            max_bytes >= 4,
            len > max_bytes,
            step == (if max_bytes - overlap_bytes >= 1 {
                max_bytes - overlap_bytes
            } else {
                1
            }),
            step >= 4 || is_ascii_chars(text@),
            layout == chunk_spans(b, max_bytes as int, step as int, 0),
            start <= len,
            is_char_boundary(b, start as int),
            chunks@.len() + chunk_spans(b, max_bytes as int, step as int, start as int).len()
                == layout.len(),
            forall|k: int|
                0 <= k < chunk_spans(b, max_bytes as int, step as int, start as int).len()
                    ==> #[trigger] chunk_spans(b, max_bytes as int, step as int, start as int)[k]
                    == layout[chunks@.len() + k],
            forall|i: int| 0 <= i < chunks@.len() ==> chunk_is(#[trigger] chunks@[i], i, layout[i], b),
        decreases len - start,
    {
        let ghost spans = chunk_spans(b, max_bytes as int, step as int, start as int);
        let limit = if max_bytes >= len - start {
            len
        } else {
            start + max_bytes
        };
        let raw_end = floor_char_boundary(text, limit);
        proof {
            lemma_floor_boundary(b, limit as int);
            lemma_next_boundary_within_four(b, start as int);
            let k = choose|k: int|
                1 <= k <= 4 && start + k <= b.len() && #[trigger] is_char_boundary(b, start + k);
            assert(start + k <= limit);
        }
        let end = find_break_point(text, start, raw_end);
        proof {
            lemma_break_point(b, start as int, raw_end as int);
        }
        let idx = chunks.len();
        let ghost prev_len = chunks@.len();
        chunks.push(
            Chunk { text: byte_slice_string(text, start, end), index: idx, start_char: start, end_char: end },
        );
        assert(spans[0] == (start as int, end as int));
        if end >= len {
            assert(spans.len() == 1);
            start = len;
            assert(chunk_spans(b, max_bytes as int, step as int, start as int).len() == 0);
            continue;
        }
        let cap = if step < end - start {
            step
        } else {
            end - start
        };
        let advance = if cap >= 1 {
            cap
        } else {
            1
        };
        let next = floor_char_boundary(text, start + advance);
        proof {
            lemma_floor_boundary(b, (start + advance) as int);
            if step >= 4 {
                if advance >= 4 {
                    let k = choose|k: int|
                        1 <= k <= 4 && start + k <= b.len() && #[trigger] is_char_boundary(
                            b,
                            start + k,
                        );
                    assert(start + k <= start + advance);
                } else {
                    assert(advance == end - start);
                }
            } else {
                lemma_ascii_all_boundaries(text@, (start + advance) as int);
            }
            assert(next > start);
            assert(next <= len);
            assert(spans =~= seq![(start as int, end as int)] + chunk_spans(
                b,
                max_bytes as int,
                step as int,
                next as int,
            ));
            let nspans = chunk_spans(b, max_bytes as int, step as int, next as int);
            assert forall|k: int| 0 <= k < nspans.len() implies #[trigger] nspans[k] == layout[chunks@.len() + k] by {
                assert(nspans[k] == spans[k + 1]);
                assert(spans[k + 1] == layout[prev_len + k + 1]);
            }
        }
        start = next;
    }
    assert(chunk_layout(b, config.max_tokens as int, config.overlap_tokens as int) == layout);
    chunks
}

proof fn lemma_break_point(b: Seq<u8>, start: int, raw_end: int)
    requires
        valid_utf8(b),
        0 <= start < raw_end <= b.len(),
        is_char_boundary(b, start),
        is_char_boundary(b, raw_end),
    ensures
        start < break_point(b, start, raw_end) <= b.len(),
        break_point(b, start, raw_end) <= raw_end || raw_end >= b.len(),
        is_char_boundary(b, break_point(b, start, raw_end)),
{
    if raw_end < b.len() {
        let ss = floor_boundary(b, start + (raw_end - start) / 2);
        lemma_floor_boundary(b, start + (raw_end - start) / 2);
        assert(start <= ss <= raw_end);
        let w = b.subrange(ss, raw_end);
        lemma_rfind_below(w, pat_paragraph(), w.len() + 1int);
        lemma_rfind_below(w, pat_period_space(), w.len() + 1int);
        lemma_rfind_below(w, pat_period_newline(), w.len() + 1int);
        lemma_rfind_below(w, pat_question_space(), w.len() + 1int);
        lemma_rfind_below(w, pat_bang_space(), w.len() + 1int);
        lemma_rfind_below(w, pat_space(), w.len() + 1int);
        let bp = break_point(b, start, raw_end);
        if bp < raw_end {
            // the break point follows an ASCII byte, so it starts a character
            let q = bp - 1;
            assert(b[q] == 10u8 || b[q] == 32u8) by {
                if rfind(w, pat_paragraph()) >= 0 {
                    let r = rfind(w, pat_paragraph());
                    assert(w.subrange(r, r + 2)[1] == 10u8);
                } else if rfind(w, pat_period_space()) >= 0 {
                    let r = rfind(w, pat_period_space());
                    assert(w.subrange(r, r + 2)[1] == 32u8);
                } else if rfind(w, pat_period_newline()) >= 0 {
                    let r = rfind(w, pat_period_newline());
                    assert(w.subrange(r, r + 2)[1] == 10u8);
                } else if rfind(w, pat_question_space()) >= 0 {
                    let r = rfind(w, pat_question_space());
                    assert(w.subrange(r, r + 2)[1] == 32u8);
                } else if rfind(w, pat_bang_space()) >= 0 {
                    let r = rfind(w, pat_bang_space());
                    assert(w.subrange(r, r + 2)[1] == 32u8);
                } else {
                    let r = rfind(w, pat_space());
                    assert(w.subrange(r, r + 1)[0] == 32u8);
                }
            }
            lemma_after_ascii_is_boundary(b, bp);
        }
    }
}

/// Choose where a chunk starting at `start` and allowed to extend to
/// `raw_end` should end.
pub fn find_break_point(text: &str, start: usize, raw_end: usize) -> (r: usize)
    requires
        start <= raw_end <= utf8(text@).len(),
        is_char_boundary(utf8(text@), start as int),
        is_char_boundary(utf8(text@), raw_end as int),
    ensures
        r == break_point(utf8(text@), start as int, raw_end as int),
{
    let ghost b = utf8(text@);
    let bytes = text.as_bytes();
    if raw_end >= bytes.len() {
        return bytes.len();
    }
    let search_start = floor_char_boundary(text, start + (raw_end - start) / 2);
    proof {
        lemma_floor_boundary(b, start + (raw_end - start) / 2);
    }
    proof {
        let w = b.subrange(search_start as int, raw_end as int);
        lemma_rfind_below(w, pat_paragraph(), w.len() + 1int);
        lemma_rfind_below(w, pat_period_space(), w.len() + 1int);
        lemma_rfind_below(w, pat_period_newline(), w.len() + 1int);
        lemma_rfind_below(w, pat_question_space(), w.len() + 1int);
        lemma_rfind_below(w, pat_bang_space(), w.len() + 1int);
        lemma_rfind_below(w, pat_space(), w.len() + 1int);
    }
    let p = rfind_in(bytes, search_start, raw_end, &[10u8, 10u8]);
    assert([10u8, 10u8]@ =~= pat_paragraph());
    if let Some(pos) = p {
        return search_start + pos + 2;
    }
    let p = rfind_in(bytes, search_start, raw_end, &[46u8, 32u8]);
    assert([46u8, 32u8]@ =~= pat_period_space());
    if let Some(pos) = p {
        return search_start + pos + 2;
    }
    let p = rfind_in(bytes, search_start, raw_end, &[46u8, 10u8]);
    assert([46u8, 10u8]@ =~= pat_period_newline());
    if let Some(pos) = p {
        return search_start + pos + 2;
    }
    let p = rfind_in(bytes, search_start, raw_end, &[63u8, 32u8]);
    assert([63u8, 32u8]@ =~= pat_question_space());
    if let Some(pos) = p {
        return search_start + pos + 2;
    }
    let p = rfind_in(bytes, search_start, raw_end, &[33u8, 32u8]);
    assert([33u8, 32u8]@ =~= pat_bang_space());
    if let Some(pos) = p {
        return search_start + pos + 2;
    }
    let p = rfind_in(bytes, search_start, raw_end, &[32u8]);
    assert([32u8]@ =~= pat_space());
    if let Some(pos) = p {
        return search_start + pos + 1;
    }
    raw_end
}

/// Chunks cover the text without gaps: the first starts at 0, the last ends
/// at the end of the text, every chunk is non-empty, at most `max_tokens * 4`
/// bytes long, and starts after the previous one and no later than where
/// the previous one ended; so there are at most as many chunks as bytes.
pub proof fn lemma_chunks_cover_text(text: Seq<char>, max_tokens: int, overlap_tokens: int)
    requires
        max_tokens > 0,
        overlap_tokens >= 0,
        utf8(text).len() > 0,
        chunking_terminates(text, max_tokens, overlap_tokens),
    ensures
        ({
            let l = chunk_layout(utf8(text), max_tokens, overlap_tokens);
            &&& l.len() >= 1
            &&& l[0].0 == 0
            &&& l[l.len() - 1].1 == utf8(text).len()
            &&& forall|i: int| 0 <= i < l.len() ==> #[trigger] l[i].0 < l[i].1
            &&& forall|i: int| 0 < i < l.len() ==> l[i - 1].0 < #[trigger] l[i].0 <= l[i - 1].1
            &&& forall|i: int| 0 <= i < l.len() ==> #[trigger] l[i].1 - l[i].0 <= max_tokens * 4
            &&& l.len() <= utf8(text).len()
        }),
{
    let b = utf8(text);
    let max_bytes = max_tokens * 4;
    let overlap_bytes = overlap_tokens * 4;
    let step = if max_bytes - overlap_bytes >= 1 {
        max_bytes - overlap_bytes
    } else {
        1
    };
    if b.len() > max_bytes {
        assert(step >= 4 || is_ascii_chars(text)) by {
            if overlap_tokens < max_tokens {
                assert(max_bytes - overlap_bytes == (max_tokens - overlap_tokens) * 4);
            }
        }
        lemma_spans_cover(text, max_bytes, step, 0);
    }
    let l = chunk_layout(b, max_tokens, overlap_tokens);
    if l.len() > 1 {
        lemma_increasing_starts(l, l.len() - 1);
    }
}

proof fn lemma_spans_cover(text: Seq<char>, max_bytes: int, step: int, start: int)
    requires
        max_bytes >= 4,
        step >= 1,
        step >= 4 || is_ascii_chars(text),
        0 <= start < utf8(text).len(),
        is_char_boundary(utf8(text), start),
    ensures
        ({
            let l = chunk_spans(utf8(text), max_bytes, step, start);
            &&& l.len() >= 1
            &&& l[0].0 == start
            &&& l[l.len() - 1].1 == utf8(text).len()
            &&& forall|i: int| 0 <= i < l.len() ==> #[trigger] l[i].0 < l[i].1
            &&& forall|i: int| 0 < i < l.len() ==> l[i - 1].0 < #[trigger] l[i].0 <= l[i - 1].1
            &&& forall|i: int| 0 <= i < l.len() ==> #[trigger] l[i].1 - l[i].0 <= max_bytes
        }),
    decreases utf8(text).len() - start,
{
    let b = utf8(text);
    let limit = min_int(start + max_bytes, b.len() as int);
    let raw_end = floor_boundary(b, limit);
    lemma_floor_boundary(b, limit);
    lemma_next_boundary_within_four(b, start);
    let k = choose|k: int| 1 <= k <= 4 && start + k <= b.len() && #[trigger] is_char_boundary(b, start + k);
    assert(start + k <= limit);
    lemma_break_point(b, start, raw_end);
    let end = break_point(b, start, raw_end);
    assert(raw_end <= limit);
    assert(end - start <= max_bytes);
    if end < b.len() {
        let advance = if min_int(step, end - start) >= 1 {
            min_int(step, end - start)
        } else {
            1
        };
        let next = floor_boundary(b, start + advance);
        lemma_floor_boundary(b, start + advance);
        if step >= 4 {
            if advance < 4 {
                assert(advance == end - start);
            }
        } else {
            lemma_ascii_all_boundaries(text, start + advance);
        }
        assert(start < next <= end);
        lemma_spans_cover(text, max_bytes, step, next);
        let rest = chunk_spans(b, max_bytes, step, next);
        let l = chunk_spans(b, max_bytes, step, start);
        assert(l == seq![(start, end)] + rest);
        assert forall|i: int| 0 < i < l.len() implies l[i - 1].0 < #[trigger] l[i].0 <= l[i - 1].1 by {
            if i > 1 {
                assert(l[i] == rest[i - 1] && l[i - 1] == rest[i - 2]);
            }
        }
        assert forall|i: int| 0 <= i < l.len() implies #[trigger] l[i].0 < l[i].1 && l[i].1 - l[i].0
            <= max_bytes by {
            if i > 0 {
                assert(l[i] == rest[i - 1]);
            }
        }
    }
}

proof fn lemma_increasing_starts(l: Seq<(int, int)>, i: int)
    requires
        l.len() >= 1,
        l[0].0 >= 0,
        forall|k: int| 0 < k < l.len() ==> l[k - 1].0 < #[trigger] l[k].0,
        0 <= i < l.len(),
    ensures
        l[i].0 >= i,
    decreases i,
{
    if i > 0 {
        lemma_increasing_starts(l, i - 1);
    }
}

} // verus!
