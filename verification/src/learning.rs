//! The learning loop: turning a successful multi-step run of tool calls
//! into a reusable skill document.

use vstd::prelude::*;

use crate::obsidian::{add_absent, opt_view};
use crate::text::{
    decimal, decimal_chars, from_chars, join, join_chars, lowercase, push_str, str_eq, to_chars,
    to_lowercase, utf8,
};
use crate::utf8_text::{byte_slice_string, floor_boundary, floor_char_boundary, lemma_floor_boundary};
use vstd::utf8::decode_utf8;

verus! {

broadcast use {
    vstd::string::group_string_axioms,
    vstd::utf8::encode_utf8_valid_utf8,
    vstd::utf8::is_char_boundary_start_end_of_seq,
};

/// A single step within a candidate procedure.
#[derive(Debug, Clone)]
pub struct ProcedureStep {
    pub tool_name: String,
    pub input_summary: String,
    pub output_summary: Option<String>,
    pub status: String,
}

/// A candidate procedure detected from a session's tool-call history: its
/// name, description, tool chain, how many of its steps succeeded, and the
/// steps themselves.
#[derive(Debug, Clone)]
pub struct CandidateProcedure {
    pub name: String,
    pub description: String,
    pub tool_sequence: Vec<String>,
    pub success_count: usize,
    pub steps: Vec<ProcedureStep>,
}

// ── Text helpers ───────────────────────────────────────────────

/// `char::is_alphanumeric`: alphabetic or numeric in Unicode.
pub uninterp spec fn alphanumeric(c: char) -> bool;

/// Calls `char::is_alphanumeric`.
#[verifier::external_body]
fn is_alphanumeric(c: char) -> (r: bool)
    ensures
        r == alphanumeric(c),
{
    c.is_alphanumeric()
}

/// The summary of a text: all of it when it is at most `max_len` bytes, else
/// its first `max_len` bytes (backing off to a character boundary) and "…".
pub open spec fn summary_of(s: Seq<char>, max_len: int) -> Seq<char> {
    if utf8(s).len() <= max_len {
        s
    } else {
        decode_utf8(utf8(s).subrange(0, floor_boundary(utf8(s), max_len))) + "…"@
    }
}

pub fn truncate(s: &str, max_len: usize) -> (r: String)
    ensures
        r@ == summary_of(s@, max_len as int),
{
    let len = s.as_bytes().len();
    if len <= max_len {
        return s.to_owned();
    }
    let end = floor_char_boundary(s, max_len);
    proof {
        lemma_floor_boundary(utf8(s@), max_len as int);
    }
    let head = byte_slice_string(s, 0, end);
    assert(head@ == decode_utf8(utf8(head@))) by {
        broadcast use vstd::utf8::encode_utf8_decode_utf8;

    }
    let mut out = to_chars(head.as_str());
    push_str(&mut out, "…");
    from_chars(out.as_slice())
}

pub open spec fn name_char(c: char) -> char {
    if alphanumeric(c) || c == '-' || c == '_' {
        c
    } else {
        '-'
    }
}

/// A skill name made file-safe: every character that is not alphanumeric,
/// '-' or '_' becomes '-', and the result is lowercased.
pub open spec fn sanitized(name: Seq<char>) -> Seq<char> {
    lowercase(name.map_values(|c: char| name_char(c)))
}

pub fn sanitize_name(name: &str) -> (r: String)
    ensures
        r@ == sanitized(name@),
{
    let chars = to_chars(name);
    let mut out: Vec<char> = Vec::new();
    let mut i: usize = 0;
    while i < chars.len()
        invariant
            0 <= i <= chars@.len(),
            chars@ == name@,
            out@ == chars@.take(i as int).map_values(|c: char| name_char(c)),
        decreases chars@.len() - i,
    {
        let c = chars[i];
        let d = if is_alphanumeric(c) || c == '-' || c == '_' {
            c
        } else {
            '-'
        };
        out.push(d);
        assert(chars@.take(i + 1).map_values(|c: char| name_char(c)) =~= chars@.take(
            i as int,
        ).map_values(|c: char| name_char(c)).push(name_char(c)));
        i = i + 1;
    }
    assert(chars@.take(chars@.len() as int) =~= chars@);
    let mapped = from_chars(out.as_slice());
    to_lowercase(mapped.as_str())
}

/// The distinct entries of `s` in order of first appearance.
pub open spec fn distinct_in_order(s: Seq<Seq<char>>) -> Seq<Seq<char>>
    decreases s.len(),
{
    if s.len() == 0 {
        seq![]
    } else {
        add_absent(distinct_in_order(s.drop_last()), s.last())
    }
}

pub open spec fn string_views(v: Seq<String>) -> Seq<Seq<char>> {
    v.map_values(|s: String| s@)
}

fn contains_chars_seq(acc: &Vec<Vec<char>>, t: &[char]) -> (r: bool)
    ensures
        r == acc@.map_values(|l: Vec<char>| l@).contains(t@),
{
    let ghost av = acc@.map_values(|l: Vec<char>| l@);
    let mut i: usize = 0;
    while i < acc.len()
        invariant
            0 <= i <= acc@.len(),
            av == acc@.map_values(|l: Vec<char>| l@),
            forall|j: int| 0 <= j < i ==> av[j] != t@,
        decreases acc@.len() - i,
    {
        if crate::text::chars_eq(acc[i].as_slice(), t) {
            assert(av[i as int] == t@);
            return true;
        }
        i = i + 1;
    }
    false
}

/// The distinct tool names of `seq`, in order of first appearance.
fn distinct_tools(seq: &[String]) -> (r: Vec<Vec<char>>)
    ensures
        r@.map_values(|l: Vec<char>| l@) == distinct_in_order(string_views(seq@)),
{
    let ghost sv = string_views(seq@);
    let mut out: Vec<Vec<char>> = Vec::new();
    let mut i: usize = 0;
    while i < seq.len()
        invariant
            0 <= i <= seq@.len(),
            sv == string_views(seq@),
            out@.map_values(|l: Vec<char>| l@) == distinct_in_order(sv.take(i as int)),
        decreases seq@.len() - i,
    {
        assert(sv.take(i + 1).drop_last() =~= sv.take(i as int));
        assert(sv.take(i + 1).last() == seq@[i as int]@);
        let t = to_chars(seq[i].as_str());
        if !contains_chars_seq(&out, t.as_slice()) {
            let ghost o0 = out@.map_values(|l: Vec<char>| l@);
            out.push(t);
            assert(out@.map_values(|l: Vec<char>| l@) =~= o0.push(seq@[i as int]@));
        }
        i = i + 1;
    }
    assert(sv.take(seq@.len() as int) =~= sv);
    out
}

/// The distinct tools of a sequence joined by " → ".
pub open spec fn tools_display(seq: Seq<Seq<char>>) -> Seq<char> {
    join(distinct_in_order(seq), " → "@)
}

pub fn distinct_tools_display(seq: &[String]) -> (r: String)
    ensures
        r@ == tools_display(string_views(seq@)),
{
    let unique = distinct_tools(seq);
    let sep = to_chars(" → ");
    from_chars(join_chars(&unique, sep.as_slice()).as_slice())
}

// ── Synthesis ──────────────────────────────────────────────────

/// A step as the skill document shows it: tool, input, output, status.
pub type StepView = (Seq<char>, Seq<char>, Option<Seq<char>>, Seq<char>);

pub open spec fn step_view(s: ProcedureStep) -> StepView {
    (s.tool_name@, s.input_summary@, opt_view(s.output_summary), s.status@)
}

pub open spec fn step_views(steps: Seq<ProcedureStep>) -> Seq<StepView> {
    steps.map_values(|s: ProcedureStep| step_view(s))
}

/// `s` with every '"' turned into '\''.
pub open spec fn quote_safe(s: Seq<char>) -> Seq<char> {
    s.map_values(|c: char| if c == '"' { '\'' } else { c })
}

/// One "  - tool" line per trigger.
pub open spec fn trigger_lines(ts: Seq<Seq<char>>) -> Seq<char>
    decreases ts.len(),
{
    if ts.len() == 0 {
        seq![]
    } else {
        trigger_lines(ts.drop_last()) + "  - "@ + ts.last() + "\n"@
    }
}

/// The lines describing step number `n` (counting from 1).
pub open spec fn step_block(n: nat, st: StepView) -> Seq<char> {
    let head = decimal(n) + ". **"@ + st.0 + "** ("@ + st.3 + ")\n"@ + "   - Input: `"@ + st.1
        + "`\n"@;
    match st.2 {
        Some(out) => head + "   - Output: `"@ + out + "`\n"@,
        None => head,
    }
}

/// The numbered blocks of all steps.
pub open spec fn steps_text(steps: Seq<StepView>) -> Seq<char>
    decreases steps.len(),
{
    if steps.len() == 0 {
        seq![]
    } else {
        steps_text(steps.drop_last()) + step_block(steps.len(), steps.last())
    }
}

/// The SKILL.md document of a candidate procedure: YAML frontmatter (name,
/// quoted description, triggers, priority, version, author), then the
/// title, the numbered steps and when to use it.
pub open spec fn skill_md(c: CandidateProcedure) -> Seq<char> {
    let tools = string_views(c.tool_sequence@);
    "---\n"@ + "name: "@ + sanitized(c.name@) + "\n"@ + "description: \""@ + quote_safe(
        c.description@,
    ) + "\"\n"@ + "triggers:\n"@ + trigger_lines(distinct_in_order(tools)) + "priority: 50\n"@
        + "version: \"0.0.1\"\n"@ + "author: learned\n"@ + "---\n\n"@ + "# "@ + c.description@
        + "\n\n"@ + "Learned from a successful "@ + decimal(c.steps@.len())
        + "-step tool sequence.\n\n"@ + "## Steps\n\n"@ + steps_text(step_views(c.steps@))
        + "\n"@ + "## When to Use\n\n"@
        + "This procedure applies when the agent needs to use "@ + tools_display(tools)
        + " in sequence.\n"@
}

fn quote_safe_chars(s: &str) -> (r: Vec<char>)
    ensures
        r@ == quote_safe(s@),
{
    let chars = to_chars(s);
    let mut out: Vec<char> = Vec::new();
    let mut i: usize = 0;
    while i < chars.len()
        invariant
            0 <= i <= chars@.len(),
            chars@ == s@,
            out@ == quote_safe(chars@.take(i as int)),
        decreases chars@.len() - i,
    {
        let c = chars[i];
        out.push(if c == '"' { '\'' } else { c });
        assert(quote_safe(chars@.take(i + 1)) =~= quote_safe(chars@.take(i as int)).push(
            if c == '"' { '\'' } else { c },
        ));
        i = i + 1;
    }
    assert(chars@.take(chars@.len() as int) =~= chars@);
    out
}

fn push_step_block(out: &mut Vec<char>, n: usize, step: &ProcedureStep)
    ensures
        final(out)@ == old(out)@ + step_block(n as nat, step_view(*step)),
{
    let mut num = decimal_chars(n);
    out.append(&mut num);
    push_str(out, ". **");
    push_str(out, step.tool_name.as_str());
    push_str(out, "** (");
    push_str(out, step.status.as_str());
    push_str(out, ")\n");
    push_str(out, "   - Input: `");
    push_str(out, step.input_summary.as_str());
    push_str(out, "`\n");
    match &step.output_summary {
        Some(o) => {
            push_str(out, "   - Output: `");
            push_str(out, o.as_str());
            push_str(out, "`\n");
        },
        None => {},
    }
    assert(final(out)@ =~= old(out)@ + step_block(n as nat, step_view(*step)));
}

/// Generate a SKILL.md document from a candidate procedure.
pub fn synthesize_skill_md(candidate: &CandidateProcedure) -> (r: String)
    ensures
        r@ == skill_md(*candidate),
{
    let ghost tools = string_views(candidate.tool_sequence@);
    let triggers = distinct_tools(candidate.tool_sequence.as_slice());
    let ghost tv = triggers@.map_values(|l: Vec<char>| l@);
    let mut md: Vec<char> = Vec::new();
    push_str(&mut md, "---\n");
    push_str(&mut md, "name: ");
    let name = sanitize_name(candidate.name.as_str());
    push_str(&mut md, name.as_str());
    push_str(&mut md, "\n");
    push_str(&mut md, "description: \"");
    let mut desc = quote_safe_chars(candidate.description.as_str());
    md.append(&mut desc);
    push_str(&mut md, "\"\n");
    push_str(&mut md, "triggers:\n");
    let ghost before_triggers = md@;
    let mut i: usize = 0;
    while i < triggers.len()
        invariant
            0 <= i <= triggers@.len(),
            tv == triggers@.map_values(|l: Vec<char>| l@),
            md@ == before_triggers + trigger_lines(tv.take(i as int)),
        decreases triggers@.len() - i,
    {
        assert(tv.take(i + 1).drop_last() =~= tv.take(i as int));
        assert(tv.take(i + 1).last() == triggers@[i as int]@);
        push_str(&mut md, "  - ");
        md.extend_from_slice(triggers[i].as_slice());
        push_str(&mut md, "\n");
        assert(md@ =~= before_triggers + trigger_lines(tv.take(i + 1)));
        i = i + 1;
    }
    assert(tv.take(triggers@.len() as int) =~= tv);
    push_str(&mut md, "priority: 50\n");
    push_str(&mut md, "version: \"0.0.1\"\n");
    push_str(&mut md, "author: learned\n");
    push_str(&mut md, "---\n\n");
    push_str(&mut md, "# ");
    push_str(&mut md, candidate.description.as_str());
    push_str(&mut md, "\n\n");
    push_str(&mut md, "Learned from a successful ");
    let mut count = decimal_chars(candidate.steps.len());
    md.append(&mut count);
    push_str(&mut md, "-step tool sequence.\n\n");
    push_str(&mut md, "## Steps\n\n");
    let ghost sv = step_views(candidate.steps@);
    let ghost before_steps = md@;
    let mut j: usize = 0;
    while j < candidate.steps.len()
        invariant
            0 <= j <= candidate.steps@.len(),
            sv == step_views(candidate.steps@),
            md@ == before_steps + steps_text(sv.take(j as int)),
        decreases candidate.steps@.len() - j,
    {
        assert(sv.take(j + 1).drop_last() =~= sv.take(j as int));
        assert(sv.take(j + 1).last() == step_view(candidate.steps@[j as int]));
        push_step_block(&mut md, j + 1, &candidate.steps[j]);
        assert(md@ =~= before_steps + steps_text(sv.take(j + 1)));
        j = j + 1;
    }
    assert(sv.take(candidate.steps@.len() as int) =~= sv);
    push_str(&mut md, "\n");
    push_str(&mut md, "## When to Use\n\n");
    push_str(&mut md, "This procedure applies when the agent needs to use ");
    let display = distinct_tools_display(candidate.tool_sequence.as_slice());
    push_str(&mut md, display.as_str());
    push_str(&mut md, " in sequence.\n");
    assert(md@ =~= skill_md(*candidate));
    from_chars(md.as_slice())
}

// ── Detection ──────────────────────────────────────────────────

/// A tool call as the learning loop reads it.
#[derive(Debug, Clone)]
pub struct ToolCall {
    pub tool_name: String,
    pub input: String,
    pub output: Option<String>,
    pub status: String,
    pub created_at: String,
}

/// Texts in lexicographic order of their characters, the order `String`'s
/// `cmp` gives (comparing UTF-8 bytes orders the same way).
pub open spec fn text_le(a: Seq<char>, b: Seq<char>) -> bool
    decreases a.len(),
{
    if a.len() == 0 {
        true
    } else if b.len() == 0 {
        false
    } else if (a[0] as u32) < (b[0] as u32) {
        true
    } else if (a[0] as u32) == (b[0] as u32) {
        text_le(a.drop_first(), b.drop_first())
    } else {
        false
    }
}

pub proof fn lemma_text_le_total(a: Seq<char>, b: Seq<char>)
    ensures
        text_le(a, b) || text_le(b, a),
    decreases a.len(),
{
    if a.len() > 0 && b.len() > 0 && (a[0] as u32) == (b[0] as u32) {
        lemma_text_le_total(a.drop_first(), b.drop_first());
    }
}

pub proof fn lemma_text_le_transitive(a: Seq<char>, b: Seq<char>, c: Seq<char>)
    requires
        text_le(a, b),
        text_le(b, c),
    ensures
        text_le(a, c),
    decreases a.len(),
{
    if a.len() > 0 && b.len() > 0 && c.len() > 0 && (a[0] as u32) == (b[0] as u32) && (b[0] as u32)
        == (c[0] as u32) {
        lemma_text_le_transitive(a.drop_first(), b.drop_first(), c.drop_first());
    }
}

pub(crate) fn text_le_chars(a: &[char], b: &[char]) -> (r: bool)
    ensures
        r == text_le(a@, b@),
{
    let mut i: usize = 0;
    assert(a@.skip(0) =~= a@);
    assert(b@.skip(0) =~= b@);
    while i < a.len() && i < b.len()
        invariant
            0 <= i <= a@.len(),
            i <= b@.len(),
            text_le(a@, b@) == text_le(a@.skip(i as int), b@.skip(i as int)),
        decreases a@.len() - i,
    {
        assert(a@.skip(i as int)[0] == a@[i as int]);
        assert(b@.skip(i as int)[0] == b@[i as int]);
        if (a[i] as u32) < (b[i] as u32) {
            return true;
        }
        if (a[i] as u32) != (b[i] as u32) {
            return false;
        }
        assert(a@.skip(i as int).drop_first() =~= a@.skip(i + 1));
        assert(b@.skip(i as int).drop_first() =~= b@.skip(i + 1));
        i = i + 1;
    }
    i == a.len()
}

/// The calls are in order of their `created_at` texts.
pub open spec fn in_time_order(cs: Seq<ToolCall>) -> bool {
    forall|i: int, j: int|
        0 <= i < j < cs.len() ==> text_le(#[trigger] cs[i].created_at@, #[trigger] cs[j].created_at@)
}

/// The calls sorted by their `created_at` texts; the same calls, each as
/// often as given.
pub fn chronological(calls: Vec<ToolCall>) -> (r: Vec<ToolCall>)
    ensures
        r@.to_multiset() == calls@.to_multiset(),
        in_time_order(r@),
{
    broadcast use vstd::seq_lib::group_to_multiset_ensures;

    let ghost all = calls@;
    let mut rest = calls;
    let mut out: Vec<ToolCall> = Vec::new();
    assert(out@.to_multiset() =~= vstd::multiset::Multiset::empty());
    while rest.len() > 0
        invariant
            out@.to_multiset().add(rest@.to_multiset()) == all.to_multiset(),
            in_time_order(out@),
        decreases rest@.len(),
    {
        let ghost r0 = rest@;
        let x = rest.remove(0);
        assert(rest@ == r0.remove(0));
        let key = to_chars(x.created_at.as_str());
        let mut j: usize = 0;
        while j < out.len()
            invariant
                0 <= j <= out@.len(),
                key@ == x.created_at@,
                forall|k: int| 0 <= k < j ==> text_le(#[trigger] out@[k].created_at@, x.created_at@),
            ensures
                0 <= j <= out@.len(),
                forall|k: int| 0 <= k < j ==> text_le(#[trigger] out@[k].created_at@, x.created_at@),
                j < out@.len() ==> !text_le(out@[j as int].created_at@, x.created_at@),
            decreases out@.len() - j,
        {
            let other = to_chars(out[j].created_at.as_str());
            if !text_le_chars(other.as_slice(), key.as_slice()) {
                break;
            }
            j = j + 1;
        }
        let ghost o0 = out@;
        proof {
            if j < o0.len() {
                lemma_text_le_total(o0[j as int].created_at@, x.created_at@);
            }
        }
        out.insert(j, x);
        assert(out@.remove(j as int) =~= o0);
        proof {
            assert forall|a: int, b: int| 0 <= a < b < out@.len() implies text_le(
                #[trigger] out@[a].created_at@,
                #[trigger] out@[b].created_at@,
            ) by {
                if b < j {
                    assert(out@[a] == o0[a] && out@[b] == o0[b]);
                } else if b == j {
                    assert(out@[a] == o0[a]);
                } else if a == j {
                    assert(out@[b] == o0[b - 1]);
                    if b - 1 > j {
                        assert(text_le(o0[j as int].created_at@, o0[b - 1].created_at@));
                        lemma_text_le_transitive(x.created_at@, o0[j as int].created_at@, o0[b - 1].created_at@);
                    }
                } else if a < j {
                    assert(out@[a] == o0[a]);
                    assert(out@[b] == o0[b - 1]);
                } else {
                    assert(out@[a] == o0[a - 1]);
                    assert(out@[b] == o0[b - 1]);
                }
            }
            assert(out@ == o0.insert(j as int, x));
            assert(out@[j as int] == x);
            vstd::seq_lib::to_multiset_remove(out@, j as int);
            assert(out@.contains(x));
            vstd::seq_lib::to_multiset_contains(out@, x);
            assert(out@.to_multiset() =~= o0.to_multiset().insert(x));
            assert(r0[0] == x);
            vstd::seq_lib::to_multiset_remove(r0, 0);
            assert(r0.contains(x));
            vstd::seq_lib::to_multiset_contains(r0, x);
            assert(r0.to_multiset() =~= rest@.to_multiset().insert(x));
        }
    }
    assert(rest@.to_multiset() =~= vstd::multiset::Multiset::empty());
    assert(out@.to_multiset().add(rest@.to_multiset()) =~= out@.to_multiset());
    out
}

/// The windows of one size, from `start` on: (start, size) pairs.
pub open spec fn windows_sized(n: int, size: int, start: int) -> Seq<(int, int)>
    decreases n - size - start + 1,
{
    if start > n - size || start < 0 {
        seq![]
    } else {
        seq![(start, size)] + windows_sized(n, size, start + 1)
    }
}

/// The windows of every size from `size` to `max`, smaller sizes first.
pub open spec fn windows_from(n: int, size: int, max: int) -> Seq<(int, int)>
    decreases max + 1 - size,
{
    if size > max || size < 1 {
        seq![]
    } else {
        windows_sized(n, size, 0) + windows_from(n, size + 1, max)
    }
}

/// The windows the detector examines over `n` calls, in order: every size
/// from `min_length` to twice that (at most `n`), each at every start.
pub open spec fn detection_windows(n: int, min_length: int) -> Seq<(int, int)> {
    if n < min_length {
        seq![]
    } else {
        windows_from(n, min_length, if 2 * min_length <= n { 2 * min_length } else { n })
    }
}

/// The windows the detector examines over `n` calls, in order.
pub fn candidate_windows(n: usize, min_length: usize) -> (r: Vec<(usize, usize)>)
    requires
        min_length >= 1,
        n < usize::MAX,
    ensures
        r@.map_values(|w: (usize, usize)| (w.0 as int, w.1 as int)) == detection_windows(
            n as int,
            min_length as int,
        ),
{
    let mut out: Vec<(usize, usize)> = Vec::new();
    if n < min_length {
        assert(out@.map_values(|w: (usize, usize)| (w.0 as int, w.1 as int)) =~= Seq::<
            (int, int),
        >::empty());
        return out;
    }
    let max = if min_length <= n / 2 {
        min_length * 2
    } else {
        n
    };
    assert(max == if 2 * min_length <= n { 2 * min_length } else { n as int });
    let mut size = min_length;
    while size <= max
        invariant
            1 <= min_length <= size <= max + 1,
            max <= n < usize::MAX,
            out@.map_values(|w: (usize, usize)| (w.0 as int, w.1 as int)) + windows_from(
                n as int,
                size as int,
                max as int,
            ) == windows_from(n as int, min_length as int, max as int),
        decreases max + 1 - size,
    {
        let mut start: usize = 0;
        let ghost before = out@.map_values(|w: (usize, usize)| (w.0 as int, w.1 as int));
        while start <= n - size
            invariant
                1 <= size <= max <= n,
                start <= n - size + 1,
                out@.map_values(|w: (usize, usize)| (w.0 as int, w.1 as int)) + windows_sized(
                    n as int,
                    size as int,
                    start as int,
                ) == before + windows_sized(n as int, size as int, 0),
            decreases n - size + 1 - start,
        {
            let ghost o0 = out@.map_values(|w: (usize, usize)| (w.0 as int, w.1 as int));
            out.push((start, size));
            assert(out@.map_values(|w: (usize, usize)| (w.0 as int, w.1 as int)) =~= o0.push(
                (start as int, size as int),
            ));
            assert(o0.push((start as int, size as int)) + windows_sized(
                n as int,
                size as int,
                start + 1,
            ) =~= o0 + windows_sized(n as int, size as int, start as int));
            start = start + 1;
        }
        assert(windows_sized(n as int, size as int, start as int) =~= Seq::<(int, int)>::empty());
        assert(before + windows_sized(n as int, size as int, 0) + windows_from(
            n as int,
            size + 1,
            max as int,
        ) =~= before + windows_from(n as int, size as int, max as int));
        assert(out@.map_values(|w: (usize, usize)| (w.0 as int, w.1 as int)) =~= before
            + windows_sized(n as int, size as int, 0));
        size = size + 1;
    }
    assert(windows_from(n as int, size as int, max as int) =~= Seq::<(int, int)>::empty());
    assert(out@.map_values(|w: (usize, usize)| (w.0 as int, w.1 as int)) =~= windows_from(
        n as int,
        min_length as int,
        max as int,
    ));
    out
}

/// The successful calls among `cs`.
pub open spec fn count_success(cs: Seq<ToolCall>) -> nat
    decreases cs.len(),
{
    if cs.len() == 0 {
        0
    } else {
        count_success(cs.drop_last()) + if cs.last().status@ == "success"@ {
            1nat
        } else {
            0nat
        }
    }
}

/// How many calls of the window starting at `start` of `size` calls
/// succeeded.
pub fn window_successes(calls: &[ToolCall], start: usize, size: usize) -> (r: usize)
    requires
        start + size <= calls@.len(),
    ensures
        r == count_success(calls@.subrange(start as int, start + size)),
{
    let mut count: usize = 0;
    let n = calls.len();
    assert(start + size <= n);
    let end: usize = start + size;
    let mut i: usize = start;
    while i < end
        invariant
            start <= i <= end,
            end == start + size,
            end <= calls@.len(),
            count <= i - start,
            count == count_success(calls@.subrange(start as int, i as int)),
        decreases end - i,
    {
        assert(calls@.subrange(start as int, i + 1).drop_last() =~= calls@.subrange(
            start as int,
            i as int,
        ));
        if str_eq(calls[i].status.as_str(), "success") {
            count = count + 1;
        }
        i = i + 1;
    }
    count
}

/// A candidate as the contracts see it: name, description, tool chain,
/// successes and steps.
pub type CandidateView = (Seq<char>, Seq<char>, Seq<Seq<char>>, nat, Seq<StepView>);

pub open spec fn candidate_view(c: CandidateProcedure) -> CandidateView {
    (c.name@, c.description@, string_views(c.tool_sequence@), c.success_count as nat, step_views(c.steps@))
}

pub open spec fn tool_names(cs: Seq<ToolCall>) -> Seq<Seq<char>> {
    cs.map_values(|c: ToolCall| c.tool_name@)
}

/// The step a call becomes: its input and output summarized to 120 bytes.
pub open spec fn step_of(c: ToolCall) -> StepView {
    (
        c.tool_name@,
        summary_of(c.input@, 120),
        match c.output {
            Some(o) => Some(summary_of(o@, 120)),
            None => None,
        },
        c.status@,
    )
}

/// The candidate a window of calls makes.
pub open spec fn window_candidate(calls: Seq<ToolCall>, w: (int, int)) -> CandidateView {
    let win = calls.subrange(w.0, w.0 + w.1);
    let tools = tool_names(win);
    (
        join(tools, "-"@),
        decimal(w.1 as nat) + "-step procedure using "@ + tools_display(tools),
        tools,
        count_success(win),
        win.map_values(|c: ToolCall| step_of(c)),
    )
}

/// The candidates of the accepted windows, in order: a window whose tools
/// are all the same, or whose name an earlier candidate already has, is
/// skipped.
pub open spec fn assembled_candidates(calls: Seq<ToolCall>, ws: Seq<(int, int)>) -> Seq<
    CandidateView,
>
    decreases ws.len(),
{
    if ws.len() == 0 {
        seq![]
    } else {
        let prev = assembled_candidates(calls, ws.drop_last());
        let c = window_candidate(calls, ws.last());
        if distinct_in_order(c.2).len() < 2 || prev.map_values(|p: CandidateView| p.0).contains(
            c.0,
        ) {
            prev
        } else {
            prev.push(c)
        }
    }
}

fn step_from_call(c: &ToolCall) -> (r: ProcedureStep)
    ensures
        step_view(r) == step_of(*c),
{
    ProcedureStep {
        tool_name: c.tool_name.clone(),
        input_summary: truncate(c.input.as_str(), 120),
        output_summary: match &c.output {
            Some(o) => Some(truncate(o.as_str(), 120)),
            None => None,
        },
        status: c.status.clone(),
    }
}

fn window_candidate_exec(calls: &[ToolCall], start: usize, size: usize) -> (r: CandidateProcedure)
    requires
        start + size <= calls@.len(),
    ensures
        candidate_view(r) == window_candidate(calls@, (start as int, size as int)),
{
    let ghost win = calls@.subrange(start as int, start + size);
    let mut tools: Vec<String> = Vec::new();
    let mut tool_chars: Vec<Vec<char>> = Vec::new();
    let mut steps: Vec<ProcedureStep> = Vec::new();
    let n = calls.len();
    assert(start + size <= n);
    let end: usize = start + size;
    let mut i: usize = start;
    while i < end
        invariant
            start <= i <= end,
            end == start + size,
            end <= calls@.len(),
            win == calls@.subrange(start as int, start + size),
            string_views(tools@) == tool_names(calls@.subrange(start as int, i as int)),
            tool_chars@.map_values(|l: Vec<char>| l@) == tool_names(
                calls@.subrange(start as int, i as int),
            ),
            step_views(steps@) == calls@.subrange(start as int, i as int).map_values(
                |c: ToolCall| step_of(c),
            ),
        decreases end - i,
    {
        let ghost t0 = string_views(tools@);
        let ghost c0 = tool_chars@.map_values(|l: Vec<char>| l@);
        let ghost s0 = step_views(steps@);
        let c = &calls[i];
        tools.push(c.tool_name.clone());
        tool_chars.push(to_chars(c.tool_name.as_str()));
        steps.push(step_from_call(c));
        let ghost part = calls@.subrange(start as int, i + 1);
        assert(part =~= calls@.subrange(start as int, i as int).push(calls@[i as int]));
        assert(string_views(tools@) =~= t0.push(c.tool_name@));
        assert(tool_chars@.map_values(|l: Vec<char>| l@) =~= c0.push(c.tool_name@));
        assert(step_views(steps@) =~= s0.push(step_of(*c)));
        assert(tool_names(part) =~= tool_names(calls@.subrange(start as int, i as int)).push(
            c.tool_name@,
        ));
        assert(part.map_values(|c: ToolCall| step_of(c)) =~= calls@.subrange(
            start as int,
            i as int,
        ).map_values(|c: ToolCall| step_of(c)).push(step_of(*c)));
        i = i + 1;
    }
    let dash = to_chars("-");
    let name = from_chars(join_chars(&tool_chars, dash.as_slice()).as_slice());
    let mut desc: Vec<char> = decimal_chars(size);
    push_str(&mut desc, "-step procedure using ");
    let display = distinct_tools_display(tools.as_slice());
    push_str(&mut desc, display.as_str());
    let success_count = window_successes(calls, start, size);
    CandidateProcedure {
        name,
        description: from_chars(desc.as_slice()),
        tool_sequence: tools,
        success_count,
        steps,
    }
}

fn has_name(cands: &Vec<CandidateProcedure>, name: &str) -> (r: bool)
    ensures
        r == cands@.map_values(|c: CandidateProcedure| candidate_view(c)).map_values(
            |p: CandidateView| p.0,
        ).contains(name@),
{
    let ghost names = cands@.map_values(|c: CandidateProcedure| candidate_view(c)).map_values(
        |p: CandidateView| p.0,
    );
    let mut i: usize = 0;
    while i < cands.len()
        invariant
            0 <= i <= cands@.len(),
            names == cands@.map_values(|c: CandidateProcedure| candidate_view(c)).map_values(
                |p: CandidateView| p.0,
            ),
            forall|j: int| 0 <= j < i ==> names[j] != name@,
        decreases cands@.len() - i,
    {
        if str_eq(cands[i].name.as_str(), name) {
            assert(names[i as int] == name@);
            return true;
        }
        i = i + 1;
    }
    false
}

/// The candidate procedures of the accepted windows (start, size) over the
/// calls in chronological order: windows whose tools are all the same are
/// skipped, and so is a window whose name an earlier candidate has.
pub fn assemble_candidates(calls: &[ToolCall], windows: &[(usize, usize)]) -> (r: Vec<
    CandidateProcedure,
>)
    requires
        forall|k: int| 0 <= k < windows@.len() ==> #[trigger] windows@[k].0 + windows@[k].1 <= calls@.len(),
    ensures
        r@.map_values(|c: CandidateProcedure| candidate_view(c)) == assembled_candidates(
            calls@,
            windows@.map_values(|w: (usize, usize)| (w.0 as int, w.1 as int)),
        ),
{
    let ghost wv = windows@.map_values(|w: (usize, usize)| (w.0 as int, w.1 as int));
    let mut out: Vec<CandidateProcedure> = Vec::new();
    let mut k: usize = 0;
    while k < windows.len()
        invariant
            0 <= k <= windows@.len(),
            wv == windows@.map_values(|w: (usize, usize)| (w.0 as int, w.1 as int)),
            forall|k: int| 0 <= k < windows@.len() ==> #[trigger] windows@[k].0 + windows@[k].1 <= calls@.len(),
            out@.map_values(|c: CandidateProcedure| candidate_view(c)) == assembled_candidates(
                calls@,
                wv.take(k as int),
            ),
        decreases windows@.len() - k,
    {
        assert(wv.take(k + 1).drop_last() =~= wv.take(k as int));
        assert(wv.take(k + 1).last() == (windows@[k as int].0 as int, windows@[k as int].1 as int));
        let (start, size) = windows[k];
        assert(start + size <= calls@.len()) by {
            assert(windows@[k as int].0 + windows@[k as int].1 <= calls@.len());
        }
        let cand = window_candidate_exec(calls, start, size);
        let distinct = distinct_tools(cand.tool_sequence.as_slice());
        proof {
            assert(distinct@.map_values(|l: Vec<char>| l@).len() == distinct@.len());
        }
        if distinct.len() >= 2 && !has_name(&out, cand.name.as_str()) {
            let ghost o0 = out@.map_values(|c: CandidateProcedure| candidate_view(c));
            out.push(cand);
            assert(out@.map_values(|c: CandidateProcedure| candidate_view(c)) =~= o0.push(
                candidate_view(cand),
            ));
        }
        k = k + 1;
    }
    assert(wv.take(windows@.len() as int) =~= wv);
    out
}

// ── The learning flow ──────────────────────────────────────────

/// What the learning flow is configured with.
#[derive(Debug, Clone, Copy, PartialEq, Eq, Structural)]
pub struct LearnGate {
    pub enabled: bool,
    pub max_learned_skills: usize,
}

/// Where the flow stands.
#[derive(Debug, Clone, Copy, PartialEq, Eq, Structural)]
pub enum LearnPhase {
    /// Nothing done yet.
    Ready,
    /// Waiting for the number of learned skills.
    Counting,
    /// Waiting for the session's tool calls.
    Loading,
    /// Waiting for the candidate procedures.
    Detecting,
    /// Waiting to learn whether the current candidate is already known.
    LookingUp,
    /// Waiting for a known candidate to be reinforced.
    Reinforcing,
    /// Waiting for a new candidate to be stored.
    Storing,
    /// Waiting for a stored candidate's skill file to be written.
    Writing,
    /// Waiting for the skill file's path to be recorded.
    Recording,
    /// Done.
    Stopped,
}

/// The flow's state: its phase, the candidate at hand and how many there
/// are.
#[derive(Debug, Clone, Copy, PartialEq, Eq, Structural)]
pub struct LearnState {
    pub phase: LearnPhase,
    pub current: usize,
    pub total: usize,
}

/// What the caller reports back.
#[derive(Debug, Clone, Copy, PartialEq, Eq, Structural)]
pub enum LearnEvent {
    /// The session closed.
    Start,
    /// The number of learned skills, or `None` when it could not be read.
    SkillCount(Option<usize>),
    /// How many tool calls the session made, or `None` when they could not
    /// be loaded.
    ToolCallsLoaded(Option<usize>),
    /// How many candidate procedures were detected.
    CandidatesDetected(usize),
    /// Whether the current candidate is already a learned skill, or `None`
    /// when that could not be checked.
    Known(Option<bool>),
    /// Whether storing the current candidate succeeded.
    Stored(bool),
    /// Whether writing its skill file succeeded.
    Written(bool),
    /// The requested action was carried out; its outcome does not matter.
    Done,
}

/// What the caller is to do next.
#[derive(Debug, Clone, Copy, PartialEq, Eq, Structural)]
pub enum LearnAction {
    /// Stop: nothing more to learn from this session.
    Stop,
    /// Count the learned skills.
    CountSkills,
    /// Load the session's tool calls.
    LoadToolCalls,
    /// Detect candidate procedures in them.
    DetectCandidates,
    /// Look up the candidate with this index among the learned skills.
    LookUp(usize),
    /// Record a success of that known skill.
    Reinforce(usize),
    /// Store the new candidate.
    Store(usize),
    /// Write its skill file.
    WriteSkill(usize),
    /// Record where its skill file was written.
    RecordPath(usize),
}

pub open spec fn stopped() -> (LearnState, LearnAction) {
    (LearnState { phase: LearnPhase::Stopped, current: 0, total: 0 }, LearnAction::Stop)
}

/// On to the next candidate, or stop after the last.
pub open spec fn next_candidate(s: LearnState) -> (LearnState, LearnAction) {
    if s.current + 1 < s.total {
        (
            LearnState { phase: LearnPhase::LookingUp, current: (s.current + 1) as usize, total: s.total },
            LearnAction::LookUp((s.current + 1) as usize),
        )
    } else {
        stopped()
    }
}

pub open spec fn at(s: LearnState, phase: LearnPhase) -> LearnState {
    LearnState { phase, current: s.current, total: s.total }
}

/// The learning flow when a session closes: stop when learning is
/// disabled, the learned-skill cap is reached or cannot be read, the tool
/// calls cannot be loaded or there are none, or no candidate is detected;
/// otherwise, candidate by candidate, reinforce a known procedure or store a
/// new one, write its skill file and record the file's path. A failed check
/// or store skips to the next candidate. An event the phase does not await
/// stops the flow.
pub open spec fn learn_next(gate: LearnGate, s: LearnState, e: LearnEvent) -> (LearnState, LearnAction) {
    match (s.phase, e) {
        (LearnPhase::Ready, LearnEvent::Start) => if gate.enabled {
            (at(s, LearnPhase::Counting), LearnAction::CountSkills)
        } else {
            stopped()
        },
        (LearnPhase::Counting, LearnEvent::SkillCount(c)) => match c {
            Some(n) => if n < gate.max_learned_skills {
                (at(s, LearnPhase::Loading), LearnAction::LoadToolCalls)
            } else {
                stopped()
            },
            None => stopped(),
        },
        (LearnPhase::Loading, LearnEvent::ToolCallsLoaded(c)) => match c {
            Some(n) => if n > 0 {
                (at(s, LearnPhase::Detecting), LearnAction::DetectCandidates)
            } else {
                stopped()
            },
            None => stopped(),
        },
        (LearnPhase::Detecting, LearnEvent::CandidatesDetected(k)) => if k > 0 {
            (LearnState { phase: LearnPhase::LookingUp, current: 0, total: k }, LearnAction::LookUp(0))
        } else {
            stopped()
        },
        (LearnPhase::LookingUp, LearnEvent::Known(k)) => match k {
            Some(true) => (at(s, LearnPhase::Reinforcing), LearnAction::Reinforce(s.current)),
            Some(false) => (at(s, LearnPhase::Storing), LearnAction::Store(s.current)),
            None => next_candidate(s),
        },
        (LearnPhase::Reinforcing, LearnEvent::Done) => next_candidate(s),
        (LearnPhase::Storing, LearnEvent::Stored(ok)) => if ok {
            (at(s, LearnPhase::Writing), LearnAction::WriteSkill(s.current))
        } else {
            next_candidate(s)
        },
        (LearnPhase::Writing, LearnEvent::Written(ok)) => if ok {
            (at(s, LearnPhase::Recording), LearnAction::RecordPath(s.current))
        } else {
            next_candidate(s)
        },
        (LearnPhase::Recording, LearnEvent::Done) => next_candidate(s),
        _ => stopped(),
    }
}

/// The state the flow starts in.
pub fn learn_start() -> (r: LearnState)
    ensures
        r == (LearnState { phase: LearnPhase::Ready, current: 0, total: 0 }),
{
    LearnState { phase: LearnPhase::Ready, current: 0, total: 0 }
}

fn stop_now() -> (r: (LearnState, LearnAction))
    ensures
        r == stopped(),
{
    (LearnState { phase: LearnPhase::Stopped, current: 0, total: 0 }, LearnAction::Stop)
}

fn advance(s: &LearnState) -> (r: (LearnState, LearnAction))
    ensures
        r == next_candidate(*s),
{
    if s.total > 0 && s.current < s.total - 1 {
        (
            LearnState { phase: LearnPhase::LookingUp, current: s.current + 1, total: s.total },
            LearnAction::LookUp(s.current + 1),
        )
    } else {
        stop_now()
    }
}

/// One step of the learning flow: the next state and what to do.
pub fn learn_step(gate: &LearnGate, state: &LearnState, event: LearnEvent) -> (r: (LearnState, LearnAction))
    ensures
        r == learn_next(*gate, *state, event),
{
    let s = *state;
    match (s.phase, event) {
        (LearnPhase::Ready, LearnEvent::Start) => if gate.enabled {
            (LearnState { phase: LearnPhase::Counting, ..s }, LearnAction::CountSkills)
        } else {
            stop_now()
        },
        (LearnPhase::Counting, LearnEvent::SkillCount(c)) => match c {
            Some(n) => if n < gate.max_learned_skills {
                (LearnState { phase: LearnPhase::Loading, ..s }, LearnAction::LoadToolCalls)
            } else {
                stop_now()
            },
            None => stop_now(),
        },
        (LearnPhase::Loading, LearnEvent::ToolCallsLoaded(c)) => match c {
            Some(n) => if n > 0 {
                (LearnState { phase: LearnPhase::Detecting, ..s }, LearnAction::DetectCandidates)
            } else {
                stop_now()
            },
            None => stop_now(),
        },
        (LearnPhase::Detecting, LearnEvent::CandidatesDetected(k)) => if k > 0 {
            (LearnState { phase: LearnPhase::LookingUp, current: 0, total: k }, LearnAction::LookUp(0))
        } else {
            stop_now()
        },
        (LearnPhase::LookingUp, LearnEvent::Known(k)) => match k {
            Some(true) => (
                LearnState { phase: LearnPhase::Reinforcing, ..s },
                LearnAction::Reinforce(s.current),
            ),
            Some(false) => (LearnState { phase: LearnPhase::Storing, ..s }, LearnAction::Store(s.current)),
            None => advance(&s),
        },
        (LearnPhase::Reinforcing, LearnEvent::Done) => advance(&s),
        (LearnPhase::Storing, LearnEvent::Stored(ok)) => if ok {
            (LearnState { phase: LearnPhase::Writing, ..s }, LearnAction::WriteSkill(s.current))
        } else {
            advance(&s)
        },
        (LearnPhase::Writing, LearnEvent::Written(ok)) => if ok {
            (LearnState { phase: LearnPhase::Recording, ..s }, LearnAction::RecordPath(s.current))
        } else {
            advance(&s)
        },
        (LearnPhase::Recording, LearnEvent::Done) => advance(&s),
        _ => stop_now(),
    }
}

/// The candidate at hand is one of those detected.
pub open spec fn learn_wf(s: LearnState) -> bool {
    match s.phase {
        LearnPhase::LookingUp | LearnPhase::Reinforcing | LearnPhase::Storing | LearnPhase::Writing
        | LearnPhase::Recording => s.current < s.total,
        _ => true,
    }
}

/// The index in an action, when it names a candidate.
pub open spec fn action_index(a: LearnAction) -> Option<usize> {
    match a {
        LearnAction::LookUp(i) => Some(i),
        LearnAction::Reinforce(i) => Some(i),
        LearnAction::Store(i) => Some(i),
        LearnAction::WriteSkill(i) => Some(i),
        LearnAction::RecordPath(i) => Some(i),
        _ => None,
    }
}

/// Every step keeps the candidate at hand among those detected, every
/// action names such a candidate, and candidates are visited in order: an
/// action on a candidate never names one before the current.
pub proof fn lemma_learn_step_in_range(gate: LearnGate, s: LearnState, e: LearnEvent)
    requires
        learn_wf(s),
    ensures
        learn_wf(learn_next(gate, s, e).0),
        learn_next(gate, s, e).1 matches LearnAction::Stop ==> learn_next(gate, s, e).0.phase
            == LearnPhase::Stopped,
        action_index(learn_next(gate, s, e).1) matches Some(i) ==> i < learn_next(gate, s, e).0.total
            && i == learn_next(gate, s, e).0.current,
        s.phase != LearnPhase::Detecting ==> (action_index(learn_next(gate, s, e).1) matches Some(i)
            ==> i >= s.current),
{
}

/// A disabled flow stops at once; so does one whose cap is reached.
pub proof fn lemma_learn_gates(gate: LearnGate, s: LearnState, n: usize)
    ensures
        s.phase == LearnPhase::Ready && !gate.enabled ==> learn_next(gate, s, LearnEvent::Start)
            == stopped(),
        s.phase == LearnPhase::Counting && n >= gate.max_learned_skills ==> learn_next(
            gate,
            s,
            LearnEvent::SkillCount(Some(n)),
        ) == stopped(),
{
}

} // verus!
