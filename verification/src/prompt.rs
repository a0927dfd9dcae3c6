//! System prompt assembly, HMAC-tagged trust boundaries and the
//! instruction anti-fade reminder.

use hmac::{Hmac, Mac};
use sha2::Sha256;
use vstd::prelude::*;

use crate::text::{
chars_eq, ends_with, ends_with_chars, from_chars, join, join_chars, lines, push_str,
    split_lines, copy_chars, starts_with, lines_from, strip_cr, trim_start, trim_end, contains,
    decimal, decimal_chars, sentences, split_sentences, is_sentence_end, lowercase, to_lowercase,
    contains_str, starts_with_chars, sub_chars, to_chars, trim, trim_chars, utf8, sentences_from,
};

verus! {

broadcast use vstd::string::group_string_axioms;

pub const BOUNDARY_PREFIX: &'static str = "<<<TRUST_BOUNDARY:";

pub const BOUNDARY_SUFFIX: &'static str = ">>>";

/// Minimum number of non-system turns before anti-fade reminders are injected.
pub const ANTI_FADE_TURN_THRESHOLD: usize = 8;

/// Maximum characters of a reminder body (~100 tokens).
pub const REMINDER_MAX_CHARS: usize = 400;

pub open spec fn prefix() -> Seq<char> {
    BOUNDARY_PREFIX@
}

pub open spec fn suffix() -> Seq<char> {
    BOUNDARY_SUFFIX@
}

pub open spec fn nl() -> Seq<char> {
    seq!['\n']
}

// ── HMAC ────────────────────────────────────────────────────────

/// HMAC-SHA256 of `message` under `key`, as the `hmac` crate computes it.
pub uninterp spec fn hmac_sha256(key: Seq<u8>, message: Seq<u8>) -> Seq<u8>;

/// Calls `Hmac::<Sha256>::new_from_slice`, `update` and `finalize`: the
/// 32-byte HMAC-SHA256 tag of `message` under `key`. `new_from_slice`
/// accepts keys of every length, so the `expect` never fires.
#[verifier::external_body]
fn hmac_sha256_tag(key: &[u8], message: &[u8]) -> (tag: Vec<u8>)
    ensures
        tag@ == hmac_sha256(key@, message@),
        tag@.len() == 32,
{
    let mut mac = Hmac::<Sha256>::new_from_slice(key).expect("HMAC accepts any key length");
    mac.update(message);
    mac.finalize().into_bytes().to_vec()
}

/// The lowercase hex digit for a value below 16.
pub open spec fn hex_digit(n: int) -> char {
    if n < 10 {
        (('0' as int) + n) as char
    } else {
        (('a' as int) + n - 10) as char
    }
}

/// Lowercase hex encoding: two digits per byte, high nibble first.
pub open spec fn hex_lower(b: Seq<u8>) -> Seq<char>
    decreases b.len(),
{
    if b.len() == 0 {
        seq![]
    } else {
        seq![hex_digit(b[0] as int / 16), hex_digit(b[0] as int % 16)] + hex_lower(b.drop_first())
    }
}

/// Lowercase hex has two digits per byte.
pub proof fn lemma_hex_lower_len(b: Seq<u8>)
    ensures
        hex_lower(b).len() == 2 * b.len(),
    decreases b.len(),
{
    if b.len() > 0 {
        lemma_hex_lower_len(b.drop_first());
    }
}

/// Calls `hex::encode`: lowercase hex, two digits per byte.
#[verifier::external_body]
pub(crate) fn hex_encode(bytes: &[u8]) -> (s: String)
    ensures
        s@ == hex_lower(bytes@),
{
    hex::encode(bytes)
}

/// The boundary tag of `data` under `secret`.
pub open spec fn hmac_hex(secret: Seq<u8>, data: Seq<char>) -> Seq<char> {
    hex_lower(hmac_sha256(secret, utf8(data)))
}

/// The hex HMAC-SHA256 tag of `data` under `secret`.
pub fn compute_hmac(data: &str, secret: &[u8]) -> (r: String)
    ensures
        r@ == hmac_hex(secret@, data@),
        r@.len() == 64,
{
    let tag = hmac_sha256_tag(secret, data.as_bytes());
    proof {
        lemma_hex_lower_len(tag@);
    }
    hex_encode(tag.as_slice())
}

/// A boundary marker line carrying `tag`.
pub open spec fn boundary_line(tag: Seq<char>) -> Seq<char> {
    prefix() + tag + suffix()
}

/// `content` between two boundary markers carrying its tag.
pub open spec fn tagged(content: Seq<char>, secret: Seq<u8>) -> Seq<char> {
    let b = boundary_line(hmac_hex(secret, content));
    b + nl() + content + nl() + b
}

/// Wraps content with HMAC-SHA256 tagged trust boundary markers.
pub fn inject_hmac_boundary(content: &str, secret: &[u8]) -> (r: String)
    ensures
        r@ == tagged(content@, secret@),
{
    let tag = compute_hmac(content, secret);
    let mut v: Vec<char> = Vec::new();
    push_str(&mut v, BOUNDARY_PREFIX);
    push_str(&mut v, tag.as_str());
    push_str(&mut v, BOUNDARY_SUFFIX);
    v.push('\n');
    push_str(&mut v, content);
    v.push('\n');
    push_str(&mut v, BOUNDARY_PREFIX);
    push_str(&mut v, tag.as_str());
    push_str(&mut v, BOUNDARY_SUFFIX);
    let r = from_chars(v.as_slice());
    assert(r@ =~= tagged(content@, secret@));
    r
}

/// The tag carried by a boundary line: the line, trimmed, must start with
/// the boundary prefix and end with the boundary suffix.
pub open spec fn tag_of(line: Seq<char>) -> Option<Seq<char>> {
    let t = trim(line);
    if starts_with(t, prefix()) && ends_with(t, suffix()) {
        Some(t.subrange(prefix().len() as int, t.len() - suffix().len()))
    } else {
        None
    }
}

/// A line that starts with the prefix and ends with the suffix is long
/// enough to hold both: the prefix holds no '>'.
proof fn lemma_marker_len(t: Seq<char>)
    requires
        starts_with(t, prefix()),
        ends_with(t, suffix()),
    ensures
        t.len() >= prefix().len() + suffix().len(),
{
    reveal_strlit("<<<TRUST_BOUNDARY:");
    reveal_strlit(">>>");
    if t.len() < prefix().len() + suffix().len() {
        let k = t.len() - suffix().len();
        assert(t.subrange(k, t.len() as int)[0] == '>');
        assert(t[k] == '>');
        assert(t.subrange(0, prefix().len() as int)[k] == t[k]);
        assert(false);
    }
}

/// Extracts the tag of a boundary marker line, if the line is one.
pub fn extract_tag(line: &str) -> (r: Option<String>)
    ensures
        r matches Some(t) ==> tag_of(line@) == Some(t@),
        r is None ==> tag_of(line@) is None,
{
    let v = to_chars(line);
    match extract_tag_chars(&v) {
        Some(t) => Some(from_chars(t.as_slice())),
        None => None,
    }
}

fn extract_tag_chars(line: &Vec<char>) -> (r: Option<Vec<char>>)
    ensures
        r matches Some(t) ==> tag_of(line@) == Some(t@),
        r is None ==> tag_of(line@) is None,
{
    let t = trim_chars(line.as_slice());
    let p = to_chars(BOUNDARY_PREFIX);
    let s = to_chars(BOUNDARY_SUFFIX);
    if starts_with_chars(t.as_slice(), p.as_slice()) && ends_with_chars(t.as_slice(), s.as_slice()) {
        proof {
            lemma_marker_len(t@);
        }
        Some(sub_chars(t.as_slice(), p.len(), t.len() - s.len()))
    } else {
        None
    }
}

/// The boundary check: at least three lines, the first and last carry the
/// same tag, and that tag is the HMAC of the lines in between joined by
/// newlines.
pub open spec fn boundary_valid(text: Seq<char>, secret: Seq<u8>) -> bool {
    let ls = lines(text);
    &&& ls.len() >= 3
    &&& tag_of(ls[0]) is Some
    &&& tag_of(ls[ls.len() - 1]) is Some
    &&& tag_of(ls[0]) == tag_of(ls[ls.len() - 1])
    &&& tag_of(ls[0])->0 == hmac_hex(secret, join(ls.subrange(1, ls.len() - 1), nl()))
}

/// Verifies that the HMAC boundary markers are intact and the content hasn't been tampered with.
pub fn verify_hmac_boundary(tagged_content: &str, secret: &[u8]) -> (r: bool)
    ensures
        r == boundary_valid(tagged_content@, secret@),
{
    let chars = to_chars(tagged_content);
    let lines_v = split_lines(chars.as_slice());
    let ghost ls = lines(tagged_content@);
    assert(lines_v@.map_values(|l: Vec<char>| l@) == ls);
    let n = lines_v.len();
    if n < 3 {
        return false;
    }
    assert(ls[0] == lines_v@[0]@);
    assert(ls[n - 1] == lines_v@[n - 1]@);
    let tag_first = match extract_tag_chars(&lines_v[0]) {
        Some(t) => t,
        None => return false,
    };
    let tag_last = match extract_tag_chars(&lines_v[n - 1]) {
        Some(t) => t,
        None => return false,
    };
    if !chars_eq(tag_first.as_slice(), tag_last.as_slice()) {
        return false;
    }
    let mut middle: Vec<Vec<char>> = Vec::new();
    let mut i: usize = 1;
    while i < n - 1
        invariant
            3 <= n == lines_v@.len(),
            1 <= i <= n - 1,
            ls == lines_v@.map_values(|l: Vec<char>| l@),
            middle@.map_values(|l: Vec<char>| l@) == ls.subrange(1, i as int),
        decreases n - 1 - i,
    {
        let ghost before = middle@.map_values(|l: Vec<char>| l@);
        let line = copy_chars(lines_v[i].as_slice());
        middle.push(line);
        assert(ls[i as int] == lines_v@[i as int]@);
        assert(middle@.map_values(|l: Vec<char>| l@) =~= before.push(ls[i as int]));
        assert(ls.subrange(1, i + 1) =~= ls.subrange(1, i as int).push(ls[i as int]));
        i = i + 1;
    }
    let inner_chars = join_chars(&middle, &['\n']);
    assert(['\n']@ =~= nl());
    let inner = from_chars(inner_chars.as_slice());
    let expected = compute_hmac(inner.as_str(), secret);
    let expected_chars = to_chars(expected.as_str());
    chars_eq(tag_first.as_slice(), expected_chars.as_slice())
}

/// A line the boundary stripper removes.
pub open spec fn is_marker_line(line: Seq<char>) -> bool {
    tag_of(line) is Some
}

/// The lines of `content` that are not boundary markers, joined by newlines.
pub open spec fn stripped(content: Seq<char>) -> Seq<char> {
    join(lines(content).filter(|l: Seq<char>| !is_marker_line(l)), nl())
}

/// Removes HMAC trust boundary markers from content (e.g., when a model
/// outputs forged boundaries that fail verification).
pub fn strip_hmac_boundaries(content: &str) -> (r: String)
    ensures
        r@ == stripped(content@),
{
    let chars = to_chars(content);
    let lines_v = split_lines(chars.as_slice());
    let ghost ls = lines(content@);
    let mut kept: Vec<Vec<char>> = Vec::new();
    let mut i: usize = 0;
    while i < lines_v.len()
        invariant
            0 <= i <= lines_v@.len(),
            ls == lines_v@.map_values(|l: Vec<char>| l@),
            kept@.map_values(|l: Vec<char>| l@) == ls.take(i as int).filter(
                |l: Seq<char>| !is_marker_line(l),
            ),
        decreases lines_v@.len() - i,
    {
        reveal_with_fuel(Seq::<_>::filter, 1);
        assert(ls.take(i + 1).drop_last() =~= ls.take(i as int));
        let ghost before = kept@.map_values(|l: Vec<char>| l@);
        match extract_tag_chars(&lines_v[i]) {
            Some(_) => {},
            None => {
                kept.push(copy_chars(lines_v[i].as_slice()));
                assert(kept@.map_values(|l: Vec<char>| l@) =~= before.push(ls[i as int]));
            },
        }
        i = i + 1;
    }
    assert(ls.take(lines_v@.len() as int) =~= ls);
    let joined = join_chars(&kept, &['\n']);
    assert(['\n']@ =~= nl());
    from_chars(joined.as_slice())
}


// ── Round trip of the trust boundary ────────────────────────────

/// No carriage return in `w` ends a line: none stands before a '\n' or at
/// the end. `str::lines` would drop such a '\r'.
pub open spec fn cr_free(w: Seq<char>) -> bool {
    forall|i: int| 0 <= i < w.len() && #[trigger] w[i] == '\r' ==> i + 1 < w.len() && w[i + 1] != '\n'
}

pub open spec fn no_newline(w: Seq<char>) -> bool {
    forall|i: int| 0 <= i < w.len() ==> w[i] != '\n'
}

proof fn lemma_lines_skip_line_chars(b: Seq<char>, rest: Seq<char>, cur: Seq<char>)
    requires
        no_newline(b),
    ensures
        lines_from(b + rest, cur) == lines_from(rest, cur + b),
    decreases b.len(),
{
    if b.len() > 0 {
        assert((b + rest)[0] == b[0]);
        assert((b + rest).drop_first() =~= b.drop_first() + rest);
        lemma_lines_skip_line_chars(b.drop_first(), rest, cur.push(b[0]));
        assert(cur.push(b[0]) + b.drop_first() =~= cur + b);
    } else {
        assert(b + rest =~= rest);
        assert(cur + b =~= cur);
    }
}

proof fn lemma_join_cons(a: Seq<char>, rest: Seq<Seq<char>>, sep: Seq<char>)
    requires
        rest.len() >= 1,
    ensures
        join(seq![a] + rest, sep) == a + sep + join(rest, sep),
    decreases rest.len(),
{
    let all = seq![a] + rest;
    if rest.len() == 1 {
        assert(all.drop_last() =~= seq![a]);
        assert(all.last() == rest[0]);
        assert(join(all, sep) == join(all.drop_last(), sep) + sep + all.last());
    } else {
        assert(all.drop_last() =~= seq![a] + rest.drop_last());
        lemma_join_cons(a, rest.drop_last(), sep);
        assert(all.last() == rest.last());
        assert(join(rest, sep) == join(rest.drop_last(), sep) + sep + rest.last());
        assert(join(all, sep) == join(all.drop_last(), sep) + sep + all.last());
        assert(a + sep + join(rest.drop_last(), sep) + sep + rest.last() =~= a + sep + (join(
            rest.drop_last(),
            sep,
        ) + sep + rest.last()));
    }
}

/// The lines of a body followed by a newline and a marker line are the
/// body's lines (which join back to the body) followed by the marker line.
proof fn lemma_lines_body(d: Seq<char>, cur: Seq<char>, marker: Seq<char>) -> (l: Seq<Seq<char>>)
    requires
        no_newline(marker),
        marker.len() > 0,
        marker.last() != '\r',
        cr_free(cur + d),
    ensures
        lines_from(d + nl() + marker, cur) == l + seq![marker],
        l.len() >= 1,
        join(l, nl()) == cur + d,
        l == crate::text::pieces_from(d, '\n', cur),
    decreases d.len(),
{
    let x = d + nl() + marker;
    if d.len() == 0 {
        assert(x =~= nl() + marker);
        assert(x.drop_first() =~= marker);
        assert(cur + d =~= cur);
        if cur.len() > 0 && cur.last() == '\r' {
            assert((cur + d)[cur.len() - 1] == '\r');
        }
        assert(strip_cr(cur) == cur);
        lemma_lines_skip_line_chars(marker, seq![], seq![]);
        assert(marker =~= marker + Seq::<char>::empty());
        assert(Seq::<char>::empty() + marker =~= marker);
        assert(lines_from(Seq::<char>::empty(), marker) == seq![marker]);
        seq![cur]
    } else if d[0] == '\n' {
        assert(x[0] == '\n');
        let d2 = d.drop_first();
        assert(x.drop_first() =~= d2 + nl() + marker);
        if cur.len() > 0 && cur.last() == '\r' {
            assert((cur + d)[cur.len() - 1] == '\r');
            assert((cur + d)[cur.len() as int] == '\n');
        }
        assert(strip_cr(cur) == cur);
        assert(cr_free(Seq::<char>::empty() + d2)) by {
            assert(Seq::<char>::empty() + d2 =~= d2);
            assert forall|i: int| 0 <= i < d2.len() && #[trigger] d2[i] == '\r' implies i + 1 < d2.len() && d2[i
                + 1] != '\n' by {
                assert((cur + d)[cur.len() + 1 + i] == '\r');
            }
        }
        let l2 = lemma_lines_body(d2, seq![], marker);
        assert(Seq::<char>::empty() + d2 =~= d2);
        lemma_join_cons(cur, l2, nl());
        assert(cur + nl() + d2 =~= cur + d);
        assert(seq![cur] + (l2 + seq![marker]) =~= (seq![cur] + l2) + seq![marker]);
        seq![cur] + l2
    } else {
        assert(x[0] == d[0]);
        let d2 = d.drop_first();
        assert(x.drop_first() =~= d2 + nl() + marker);
        assert(cur.push(d[0]) + d2 =~= cur + d);
        lemma_lines_body(d2, cur.push(d[0]), marker)
    }
}

proof fn lemma_hex_chars(b: Seq<u8>)
    ensures
        forall|i: int|
            0 <= i < hex_lower(b).len() ==> {
                let c = #[trigger] hex_lower(b)[i];
                ('0' <= c <= '9') || ('a' <= c <= 'f')
            },
    decreases b.len(),
{
    if b.len() > 0 {
        lemma_hex_chars(b.drop_first());
        let h = hex_lower(b);
        let rest = hex_lower(b.drop_first());
        assert forall|i: int| 0 <= i < h.len() implies {
            let c = #[trigger] h[i];
            ('0' <= c <= '9') || ('a' <= c <= 'f')
        } by {
            if i >= 2 {
                assert(h[i] == rest[i - 2]);
            }
        }
    }
}

/// Verifying what `inject_hmac_boundary` produced, with the same secret,
/// succeeds, for every content in which no carriage return ends a line.
pub proof fn lemma_inject_then_verify(content: Seq<char>, secret: Seq<u8>)
    requires
        cr_free(content),
    ensures
        boundary_valid(tagged(content, secret), secret),
{
    reveal_strlit("<<<TRUST_BOUNDARY:");
    reveal_strlit(">>>");
    let tag = hmac_hex(secret, content);
    let b = boundary_line(tag);
    lemma_hex_chars(hmac_sha256(secret, utf8(content)));
    assert(no_newline(b)) by {
        assert forall|i: int| 0 <= i < b.len() implies b[i] != '\n' by {
            if i >= prefix().len() && i < prefix().len() + tag.len() {
                assert(b[i] == tag[i - prefix().len()]);
            }
        }
    }
    let t = tagged(content, secret);
    assert(t =~= b + (nl() + content + nl() + b));
    lemma_lines_skip_line_chars(b, nl() + content + nl() + b, seq![]);
    assert(Seq::<char>::empty() + b =~= b);
    let rest = nl() + content + nl() + b;
    assert(rest[0] == '\n');
    assert(rest.drop_first() =~= content + nl() + b);
    assert(b.last() == '>');
    assert(strip_cr(b) == b);
    assert(Seq::<char>::empty() + content =~= content);
    let l = lemma_lines_body(content, seq![], b);
    let ls = lines(t);
    assert(ls =~= seq![b] + l + seq![b]);
    assert(ls.subrange(1, ls.len() - 1) =~= l);
    // the marker line is its own trimmed form
    assert(b[0] == '<');
    assert(trim_start(b) == b);
    assert(trim_end(b) == b);
    assert(trim(b) == b);
    assert(b.subrange(0, prefix().len() as int) =~= prefix());
    assert(b.subrange(b.len() - suffix().len(), b.len() as int) =~= suffix());
    assert(b.subrange(prefix().len() as int, b.len() - suffix().len()) =~= tag);
    assert(ls[0] == b);
    assert(ls[ls.len() - 1] == b);
}


proof fn lemma_filter_keeps_all(l: Seq<Seq<char>>, keep: spec_fn(Seq<char>) -> bool)
    requires
        forall|i: int| 0 <= i < l.len() ==> #[trigger] keep(l[i]),
    ensures
        l.filter(keep) == l,
    decreases l.len(),
{
    reveal_with_fuel(Seq::<_>::filter, 1);
    if l.len() > 0 {
        lemma_filter_keeps_all(l.drop_last(), keep);
        assert(keep(l[l.len() - 1]));
        assert(l.drop_last().push(l.last()) =~= l);
    }
}

/// Stripping the boundaries of what `inject_hmac_boundary` produced gives
/// the content back, for every content in which no carriage return ends a
/// line and no line (piece between newlines) is itself a boundary marker.
pub proof fn lemma_strip_after_inject(content: Seq<char>, secret: Seq<u8>)
    requires
        cr_free(content),
        forall|i: int|
            0 <= i < crate::text::pieces(content, '\n').len() ==> !is_marker_line(
                #[trigger] crate::text::pieces(content, '\n')[i],
            ),
    ensures
        stripped(tagged(content, secret)) == content,
{
    reveal_strlit("<<<TRUST_BOUNDARY:");
    reveal_strlit(">>>");
    let tag = hmac_hex(secret, content);
    let b = boundary_line(tag);
    lemma_hex_chars(hmac_sha256(secret, utf8(content)));
    assert(no_newline(b)) by {
        assert forall|i: int| 0 <= i < b.len() implies b[i] != '\n' by {
            if i >= prefix().len() && i < prefix().len() + tag.len() {
                assert(b[i] == tag[i - prefix().len()]);
            }
        }
    }
    let t = tagged(content, secret);
    assert(t =~= b + (nl() + content + nl() + b));
    lemma_lines_skip_line_chars(b, nl() + content + nl() + b, seq![]);
    assert(Seq::<char>::empty() + b =~= b);
    let rest = nl() + content + nl() + b;
    assert(rest[0] == '\n');
    assert(rest.drop_first() =~= content + nl() + b);
    assert(b.last() == '>');
    assert(strip_cr(b) == b);
    assert(Seq::<char>::empty() + content =~= content);
    let l = lemma_lines_body(content, seq![], b);
    let ls = lines(t);
    assert(ls =~= seq![b] + l + seq![b]);
    assert(b[0] == '<');
    assert(trim_start(b) == b);
    assert(trim_end(b) == b);
    assert(trim(b) == b);
    assert(b.subrange(0, prefix().len() as int) =~= prefix());
    assert(b.subrange(b.len() - suffix().len(), b.len() as int) =~= suffix());
    assert(is_marker_line(b));
    let keep = |x: Seq<char>| !is_marker_line(x);
    assert forall|i: int| 0 <= i < l.len() implies #[trigger] keep(l[i]) by {
        assert(!is_marker_line(crate::text::pieces(content, '\n')[i]));
    }
    lemma_filter_keeps_all(l, keep);
    Seq::filter_distributes_over_add(seq![b] + l, seq![b], keep);
    Seq::filter_distributes_over_add(seq![b], l, keep);
    reveal_with_fuel(Seq::<_>::filter, 2);
    assert(seq![b].drop_last() =~= Seq::<Seq<char>>::empty());
    assert(seq![b].filter(keep) =~= Seq::<Seq<char>>::empty());
    assert(ls.filter(keep) =~= l);
}

// ── Prompt assembly ─────────────────────────────────────────────

pub open spec fn opt_view(o: Option<&str>) -> Option<Seq<char>> {
    match o {
        Some(s) => Some(s@),
        None => None,
    }
}

/// The section introducing the `i`-th skill (numbered from one).
pub open spec fn skill_section(i: int, instr: Seq<char>) -> Seq<char> {
    "### Skill "@ + decimal((i + 1) as nat) + nl() + instr + nl()
}

/// The sections of the system prompt, in order: the agent header, the
/// firmware when present and non-empty, the identity when present, and the
/// active skills when there are any.
pub open spec fn prompt_sections(
    name: Seq<char>,
    os: Option<Seq<char>>,
    fw: Option<Seq<char>>,
    skills: Seq<Seq<char>>,
) -> Seq<Seq<char>> {
    let head = seq!["# Agent: "@ + name + nl()];
    let with_fw = if fw is Some && fw->0.len() > 0 {
        head.push(fw->0)
    } else {
        head
    };
    let with_os = if os is Some {
        with_fw.push("## Identity\n"@ + os->0 + nl())
    } else {
        with_fw
    };
    if skills.len() == 0 {
        with_os
    } else {
        with_os.push("## Active Skills\n"@) + Seq::new(
            skills.len(),
            |i: int| skill_section(i, skills[i]),
        )
    }
}

/// Assembles the system prompt: the sections joined by newlines.
pub fn build_system_prompt(
    agent_name: &str,
    os_personality: Option<&str>,
    firmware: Option<&str>,
    skill_instructions: &[String],
) -> (r: String)
    requires
        skill_instructions@.len() < usize::MAX,
    ensures
        r@ == join(
            prompt_sections(
                agent_name@,
                opt_view(os_personality),
                opt_view(firmware),
                skill_instructions@.map_values(|s: String| s@),
            ),
            nl(),
        ),
{
    let ghost skills = skill_instructions@.map_values(|s: String| s@);
    let mut sections: Vec<Vec<char>> = Vec::new();
    let mut head: Vec<char> = Vec::new();
    push_str(&mut head, "# Agent: ");
    push_str(&mut head, agent_name);
    head.push('\n');
    assert(head@ =~= "# Agent: "@ + agent_name@ + nl());
    sections.push(head);
    let ghost s0 = sections@.map_values(|l: Vec<char>| l@);
    assert(s0 =~= seq!["# Agent: "@ + agent_name@ + nl()]);
    if let Some(fw_text) = firmware {
        if !fw_text.is_empty() {
            sections.push(to_chars(fw_text));
            assert(sections@.map_values(|l: Vec<char>| l@) =~= s0.push(fw_text@));
        }
    }
    let ghost s1 = sections@.map_values(|l: Vec<char>| l@);
    if let Some(os_text) = os_personality {
        let mut id: Vec<char> = Vec::new();
        push_str(&mut id, "## Identity\n");
        push_str(&mut id, os_text);
        id.push('\n');
        assert(id@ =~= "## Identity\n"@ + os_text@ + nl());
        sections.push(id);
        assert(sections@.map_values(|l: Vec<char>| l@) =~= s1.push("## Identity\n"@ + os_text@ + nl()));
    }
    let ghost base = sections@.map_values(|l: Vec<char>| l@);
    assert(base =~= prompt_sections(agent_name@, opt_view(os_personality), opt_view(firmware), seq![]));
    if skill_instructions.len() > 0 {
        sections.push(to_chars("## Active Skills\n"));
        assert(sections@.map_values(|l: Vec<char>| l@) =~= base.push("## Active Skills\n"@));
        let ghost with_header = sections@.map_values(|l: Vec<char>| l@);
        let mut i: usize = 0;
        while i < skill_instructions.len()
            invariant
                0 <= i <= skill_instructions@.len() < usize::MAX,
                skills == skill_instructions@.map_values(|s: String| s@),
                sections@.map_values(|l: Vec<char>| l@) == with_header + Seq::new(
                    i as nat,
                    |k: int| skill_section(k, skills[k]),
                ),
            decreases skill_instructions@.len() - i,
        {
            let ghost before = sections@.map_values(|l: Vec<char>| l@);
            let mut sec: Vec<char> = Vec::new();
            push_str(&mut sec, "### Skill ");
            let mut num = decimal_chars(i + 1);
            sec.append(&mut num);
            sec.push('\n');
            push_str(&mut sec, skill_instructions[i].as_str());
            sec.push('\n');
            assert(sec@ =~= skill_section(i as int, skills[i as int]));
            let ghost secv = sec@;
            sections.push(sec);
            assert(sections@.map_values(|l: Vec<char>| l@) =~= before.push(secv));
            assert(sections@.map_values(|l: Vec<char>| l@) =~= with_header + Seq::new(
                (i + 1) as nat,
                |k: int| skill_section(k, skills[k]),
            ));
            i = i + 1;
        }
        assert(sections@.map_values(|l: Vec<char>| l@) =~= prompt_sections(
            agent_name@,
            opt_view(os_personality),
            opt_view(firmware),
            skills,
        ));
    } else {
        assert(skills =~= Seq::<Seq<char>>::empty());
    }
    let joined = join_chars(&sections, &['\n']);
    assert(['\n']@ =~= nl());
    from_chars(joined.as_slice())
}

/// Settings of the Obsidian integration that prompt assembly reads.
pub struct ObsidianSettings {
    pub enabled: bool,
    pub preferred_destination: bool,
}

pub const OBSIDIAN_PREFERRED_DESTINATION: &'static str = "\
## Document Output\n\
When asked to produce documents, reports, notes, or any persistent written output, \
prefer writing to the Obsidian vault using the obsidian_write tool. Include relevant \
tags and wikilinks to related notes. Generate an obsidian:// URI so the user can open \
the result directly in Obsidian.";

/// The Obsidian preferred-destination directive, when the integration is
/// enabled and configured as the preferred destination.
pub fn obsidian_directive(config: &ObsidianSettings) -> (r: Option<String>)
    ensures
        (config.enabled && config.preferred_destination) ==> r is Some && r->0@
            == OBSIDIAN_PREFERRED_DESTINATION@,
        !(config.enabled && config.preferred_destination) ==> r is None,
{
    if config.enabled && config.preferred_destination {
        Some(OBSIDIAN_PREFERRED_DESTINATION.to_owned())
    } else {
        None
    }
}

/// The runtime metadata block appended to the system prompt.
pub open spec fn metadata_block(version: Seq<char>, primary: Seq<char>, active: Seq<char>) -> Seq<char> {
    "\n---\n## Runtime\n- Platform: Ironclad v"@ + version + "\n- Primary model: "@ + primary
        + "\n- Active model (this response): "@ + active + "\n---"@
}

/// Builds a compact runtime metadata block for injection into the system prompt.
pub fn runtime_metadata_block(version: &str, primary_model: &str, active_model: &str) -> (r: String)
    ensures
        r@ == metadata_block(version@, primary_model@, active_model@),
{
    let mut v: Vec<char> = Vec::new();
    push_str(&mut v, "\n---\n## Runtime\n- Platform: Ironclad v");
    push_str(&mut v, version);
    push_str(&mut v, "\n- Primary model: ");
    push_str(&mut v, primary_model);
    push_str(&mut v, "\n- Active model (this response): ");
    push_str(&mut v, active_model);
    push_str(&mut v, "\n---");
    from_chars(v.as_slice())
}

pub const TOOL_USE_HEADER: &'static str = "\n---\n## Tool Use\n\
     You have access to the following tools. To invoke a tool, include a JSON block \
     in your response with this exact format:\n\
     ```\n{\"tool_call\": {\"name\": \"<tool-name>\", \"params\": {<parameters>}}}\n```\n\
     You may invoke multiple tools in a single response. Always use the tool that \
     best matches the task. If delegation tools are available, prefer delegating \
     subtasks to specialist subagents rather than doing everything yourself.\n\n\
     ### Available Tools\n";

/// One line of the tool list.
pub open spec fn tool_line(name: Seq<char>, desc: Seq<char>) -> Seq<char> {
    "- **"@ + name + "**: "@ + desc + nl()
}

/// The tool lines of the first `n` tools.
pub open spec fn tool_lines(tools: Seq<(Seq<char>, Seq<char>)>, n: int) -> Seq<char>
    decreases n,
{
    if n <= 0 {
        seq![]
    } else {
        tool_lines(tools, n - 1) + tool_line(tools[n - 1].0, tools[n - 1].1)
    }
}

/// Tool-use instructions and a text-based tool summary; empty when there
/// are no tools.
pub fn tool_use_instructions(tool_names: &[(String, String)]) -> (r: String)
    ensures
        ({
            let tools = tool_names@.map_values(|t: (String, String)| (t.0@, t.1@));
            r@ == if tools.len() == 0 {
                Seq::<char>::empty()
            } else {
                TOOL_USE_HEADER@ + tool_lines(tools, tools.len() as int) + "---"@
            }
        }),
{
    let ghost tools = tool_names@.map_values(|t: (String, String)| (t.0@, t.1@));
    if tool_names.len() == 0 {
        return String::new();
    }
    let mut v: Vec<char> = Vec::new();
    push_str(&mut v, TOOL_USE_HEADER);
    let mut i: usize = 0;
    while i < tool_names.len()
        invariant
            0 <= i <= tool_names@.len(),
            tools == tool_names@.map_values(|t: (String, String)| (t.0@, t.1@)),
            v@ == TOOL_USE_HEADER@ + tool_lines(tools, i as int),
        decreases tool_names@.len() - i,
    {
        let (name, desc) = &tool_names[i];
        push_str(&mut v, "- **");
        push_str(&mut v, name.as_str());
        push_str(&mut v, "**: ");
        push_str(&mut v, desc.as_str());
        v.push('\n');
        assert(tools[i as int] == (name@, desc@));
        assert(v@ =~= TOOL_USE_HEADER@ + tool_lines(tools, i + 1));
        i = i + 1;
    }
    push_str(&mut v, "---");
    from_chars(v.as_slice())
}

// ── Instruction anti-fade ───────────────────────────────────────

/// The lowercase text holds one of the imperative markers.
pub open spec fn has_marker(lower: Seq<char>) -> bool {
    ||| contains(lower, "must"@)
    ||| contains(lower, "always"@)
    ||| contains(lower, "never"@)
    ||| contains(lower, "should"@)
    ||| contains(lower, "do not"@)
    ||| contains(lower, "don't"@)
    ||| contains(lower, "ensure"@)
    ||| contains(lower, "prefer"@)
    ||| contains(lower, "avoid"@)
    ||| contains(lower, "prioritize"@)
    ||| contains(lower, "remember"@)
    ||| contains(lower, "important"@)
}

fn contains_marker(lower: &[char]) -> (r: bool)
    ensures
        r == has_marker(lower@),
{
    contains_str(lower, "must") || contains_str(lower, "always") || contains_str(lower, "never")
        || contains_str(lower, "should") || contains_str(lower, "do not") || contains_str(
        lower,
        "don't",
    ) || contains_str(lower, "ensure") || contains_str(lower, "prefer") || contains_str(
        lower,
        "avoid",
    ) || contains_str(lower, "prioritize") || contains_str(lower, "remember") || contains_str(
        lower,
        "important",
    )
}

/// A sentence piece that counts as an imperative: trimmed, at least ten
/// bytes long, and holding a marker once lowercased.
pub open spec fn is_imperative(piece: Seq<char>) -> bool {
    let t = trim(piece);
    &&& utf8(t).len() >= 10
    &&& has_marker(lowercase(t))
}

/// The imperative sentences of `text`, trimmed and ended with a period.
pub open spec fn imperatives(text: Seq<char>) -> Seq<Seq<char>> {
    sentences(text).filter(|p: Seq<char>| is_imperative(p)).map_values(
        |p: Seq<char>| trim(p).push('.'),
    )
}

fn imperatives_chars(text: &[char]) -> (r: Vec<Vec<char>>)
    ensures
        r@.map_values(|l: Vec<char>| l@) == imperatives(text@),
{
    let pieces = split_sentences(text);
    let ghost ps = sentences(text@);
    let mut out: Vec<Vec<char>> = Vec::new();
    let mut i: usize = 0;
    while i < pieces.len()
        invariant
            0 <= i <= pieces@.len(),
            ps == pieces@.map_values(|l: Vec<char>| l@),
            out@.map_values(|l: Vec<char>| l@) == ps.take(i as int).filter(
                |p: Seq<char>| is_imperative(p),
            ).map_values(|p: Seq<char>| trim(p).push('.')),
        decreases pieces@.len() - i,
    {
        reveal_with_fuel(Seq::<_>::filter, 1);
        assert(ps.take(i + 1).drop_last() =~= ps.take(i as int));
        let ghost before = out@.map_values(|l: Vec<char>| l@);
        let ghost f = ps.take(i as int).filter(|p: Seq<char>| is_imperative(p));
        let t = trim_chars(pieces[i].as_slice());
        assert(ps[i as int] == pieces@[i as int]@);
        let ts = from_chars(t.as_slice());
        if ts.as_str().as_bytes().len() >= 10 {
            let lower = to_lowercase(ts.as_str());
            let lower_chars = to_chars(lower.as_str());
            if contains_marker(lower_chars.as_slice()) {
                let mut line = t;
                line.push('.');
                out.push(line);
                assert(f.push(ps[i as int]).map_values(|p: Seq<char>| trim(p).push('.')) =~= f.map_values(
                    |p: Seq<char>| trim(p).push('.'),
                ).push(trim(ps[i as int]).push('.')));
                assert(out@.map_values(|l: Vec<char>| l@) =~= before.push(trim(ps[i as int]).push('.')));
            }
        }
        i = i + 1;
    }
    assert(ps.take(pieces@.len() as int) =~= ps);
    out
}

/// Extract sentences that contain imperative language patterns.
pub fn extract_imperative_sentences(text: &str) -> (r: Vec<String>)
    ensures
        r@.map_values(|s: String| s@) == imperatives(text@),
{
    let chars = to_chars(text);
    let imps = imperatives_chars(chars.as_slice());
    let mut out: Vec<String> = Vec::new();
    let mut i: usize = 0;
    while i < imps.len()
        invariant
            0 <= i <= imps@.len(),
            out@.map_values(|s: String| s@) == imps@.map_values(|l: Vec<char>| l@).take(i as int),
        decreases imps@.len() - i,
    {
        let ghost before = out@.map_values(|s: String| s@);
        out.push(from_chars(imps[i].as_slice()));
        assert(out@.map_values(|s: String| s@) =~= before.push(imps@[i as int]@));
        assert(out@.map_values(|s: String| s@) =~= imps@.map_values(|l: Vec<char>| l@).take(i + 1));
        i = i + 1;
    }
    assert(imps@.map_values(|l: Vec<char>| l@).take(imps@.len() as int) =~= imps@.map_values(
        |l: Vec<char>| l@,
    ));
    out
}

/// The first two non-empty trimmed sentences.
pub open spec fn first_sentences(text: Seq<char>) -> Seq<Seq<char>> {
    let f = sentences(text).map_values(|p: Seq<char>| trim(p)).filter(|p: Seq<char>| p.len() > 0);
    if f.len() >= 2 {
        f.take(2)
    } else {
        f
    }
}

/// The index of the last sentence-ending character of `s` below `k`, or -1.
pub open spec fn last_sentence_end(s: Seq<char>, k: int) -> int
    decreases k,
{
    if k <= 0 {
        -1
    } else if is_sentence_end(s[k - 1]) {
        k - 1
    } else {
        last_sentence_end(s, k - 1)
    }
}

/// The reminder body cut to `REMINDER_MAX_CHARS` characters: when it was
/// longer, cut back to the last complete sentence, or marked with "..."
/// when the kept part holds no sentence end.
pub open spec fn cut_reminder(body: Seq<char>) -> Seq<char> {
    if body.len() <= REMINDER_MAX_CHARS {
        body
    } else {
        let t = body.take(REMINDER_MAX_CHARS as int);
        let q = last_sentence_end(t, t.len() as int);
        if q >= 0 {
            t.take(q + 1)
        } else {
            t + "..."@
        }
    }
}

/// The reminder for the given identity texts: `None` when both are empty or
/// when the combined text holds neither imperatives nor a non-empty sentence.
pub open spec fn reminder(os: Seq<char>, fw: Seq<char>) -> Option<Seq<char>> {
    let combined = if fw.len() == 0 {
        os
    } else if os.len() == 0 {
        fw
    } else {
        fw + nl() + os
    };
    let imps = imperatives(combined);
    if os.len() == 0 && fw.len() == 0 {
        None
    } else if imps.len() == 0 && first_sentences(combined).len() == 0 {
        None
    } else {
        let body = if imps.len() == 0 {
            join(first_sentences(combined), ". "@) + "."@
        } else {
            join(imps, " "@)
        };
        Some("[Instruction Reminder] Key directives from your identity:\n"@ + cut_reminder(body))
    }
}

proof fn lemma_last_sentence_end(s: Seq<char>, k: int)
    ensures
        -1 <= last_sentence_end(s, k) < (if k > 0 { k } else { 0 }),
    decreases k,
{
    if k > 0 {
        lemma_last_sentence_end(s, k - 1);
    }
}

/// A reminder body is cut to at most 403 characters (400 and "..."), and
/// a non-empty body never becomes empty; so a reminder is its header and at
/// most 403 characters.
pub proof fn lemma_reminder_length(os: Seq<char>, fw: Seq<char>, body: Seq<char>)
    ensures
        cut_reminder(body).len() <= REMINDER_MAX_CHARS + 3,
        body.len() > 0 ==> cut_reminder(body).len() > 0,
        reminder(os, fw) matches Some(r) ==> r.len() <= "[Instruction Reminder] Key directives from your identity:\n"@.len()
            + REMINDER_MAX_CHARS + 3,
{
    reveal_strlit("...");
    if body.len() > REMINDER_MAX_CHARS {
        let t = body.take(REMINDER_MAX_CHARS as int);
        lemma_last_sentence_end(t, t.len() as int);
    }
    let combined = if fw.len() == 0 {
        os
    } else if os.len() == 0 {
        fw
    } else {
        fw + nl() + os
    };
    let imps = imperatives(combined);
    let b2 = if imps.len() == 0 {
        join(first_sentences(combined), ". "@) + "."@
    } else {
        join(imps, " "@)
    };
    if b2.len() > REMINDER_MAX_CHARS {
        let t = b2.take(REMINDER_MAX_CHARS as int);
        lemma_last_sentence_end(t, t.len() as int);
    }
}

/// The header that opens every instruction reminder.
pub open spec fn reminder_header() -> Seq<char> {
    "[Instruction Reminder] Key directives from your identity:\n"@
}

proof fn lemma_sentences_first(p: Seq<char>, x: Seq<char>, cur: Seq<char>)
    requires
        forall|i: int| 0 <= i < p.len() ==> !is_sentence_end(#[trigger] p[i]),
    ensures
        sentences_from(p + seq!['.'] + x, cur) == seq![cur + p] + sentences_from(x, seq![]),
    decreases p.len(),
{
    let s = p + seq!['.'] + x;
    if p.len() == 0 {
        assert(s[0] == '.');
        assert(s.drop_first() =~= x);
        assert(cur + p =~= cur);
    } else {
        assert(s[0] == p[0]);
        assert(s.drop_first() =~= p.drop_first() + seq!['.'] + x);
        lemma_sentences_first(p.drop_first(), x, cur.push(p[0]));
        assert(cur.push(p[0]) + p.drop_first() =~= cur + p);
    }
}

proof fn lemma_join_starts_with(parts: Seq<Seq<char>>, sep: Seq<char>)
    requires
        parts.len() > 0,
    ensures
        parts[0].len() <= join(parts, sep).len(),
        join(parts, sep).take(parts[0].len() as int) == parts[0],
    decreases parts.len(),
{
    if parts.len() > 1 {
        let init = parts.drop_last();
        lemma_join_starts_with(init, sep);
        assert(init[0] == parts[0]);
        let j = join(init, sep);
        assert((j + sep + parts.last()).take(parts[0].len() as int) =~= j.take(parts[0].len() as int));
    }
}

proof fn lemma_last_sentence_end_at_least(s: Seq<char>, k: int, m: int)
    requires
        0 <= m < k <= s.len(),
        is_sentence_end(s[m]),
    ensures
        last_sentence_end(s, k) >= m,
    decreases k,
{
    if k - 1 != m && !is_sentence_end(s[k - 1]) {
        lemma_last_sentence_end_at_least(s, k - 1, m);
    }
}

/// Firmware comes before the OS personality: when both texts are non-empty
/// and the firmware opens with an imperative sentence `p` (closed by '.'),
/// the reminder body begins with that directive, trimmed and closed by a
/// period, whenever the directive alone fits in the cut.
pub proof fn lemma_reminder_firmware_first(os: Seq<char>, fw: Seq<char>, p: Seq<char>, rest: Seq<char>)
    requires
        os.len() > 0,
        fw == p + seq!['.'] + rest,
        forall|i: int| 0 <= i < p.len() ==> !is_sentence_end(#[trigger] p[i]),
        is_imperative(p),
        trim(p).len() + 1 <= REMINDER_MAX_CHARS,
    ensures
        reminder(os, fw) is Some,
        reminder(os, fw)->0.len() >= reminder_header().len() + trim(p).len() + 1,
        reminder(os, fw)->0.take(reminder_header().len() as int) == reminder_header(),
        reminder(os, fw)->0.subrange(
            reminder_header().len() as int,
            reminder_header().len() + trim(p).len() + 1int,
        ) == trim(p).push('.'),
{
    let combined = fw + nl() + os;
    let x = rest + nl() + os;
    assert(combined =~= p + seq!['.'] + x);
    lemma_sentences_first(p, x, seq![]);
    assert(seq![] + p =~= p);
    let ss = sentences(combined);
    assert(ss == seq![p] + sentences_from(x, seq![]));
    let f = |q: Seq<char>| is_imperative(q);
    let tail = sentences_from(x, seq![]);
    assert(ss =~= seq![p] + tail);
    Seq::filter_distributes_over_add(seq![p], tail, f);
    assert(seq![p].filter(f) =~= seq![p]) by {
        reveal_with_fuel(Seq::<_>::filter, 2);
        assert(seq![p].drop_last() =~= Seq::<Seq<char>>::empty());
    }
    let fl = ss.filter(f);
    assert(fl == seq![p] + tail.filter(f));
    assert(fl[0] == p);
    let imps = imperatives(combined);
    assert(imps.len() == fl.len());
    assert(imps[0] == trim(p).push('.'));
    let body = join(imps, " "@);
    lemma_join_starts_with(imps, " "@);
    let first = trim(p).push('.');
    let n = first.len() as int;
    let cut = cut_reminder(body);
    assert(cut.len() >= n && cut.take(n) == first) by {
        if body.len() <= REMINDER_MAX_CHARS {
            assert(cut == body);
        } else {
            let t = body.take(REMINDER_MAX_CHARS as int);
            assert(t[n - 1] == body[n - 1]);
            assert(body[n - 1] == body.take(n)[n - 1]);
            assert(first[n - 1] == '.');
            lemma_last_sentence_end_at_least(t, t.len() as int, n - 1);
            let q = last_sentence_end(t, t.len() as int);
            lemma_last_sentence_end(t, t.len() as int);
            assert(cut == t.take(q + 1));
            assert(cut.take(n) =~= body.take(n));
        }
    }
    let r = reminder_header() + cut;
    assert(reminder(os, fw) == Some(r));
    assert(r.take(reminder_header().len() as int) =~= reminder_header());
    assert(r.subrange(reminder_header().len() as int, reminder_header().len() as int + n) =~= cut.take(n));
}

/// Build a compact instruction micro-reminder from firmware and OS text.
///
/// Firmware directives come first, then the OS personality; imperative
/// sentences are kept, else the first two sentences, and the result is cut
/// to about a hundred tokens.
pub fn build_instruction_reminder(os_text: &str, firmware_text: &str) -> (r: Option<String>)
    ensures
        match r {
            Some(s) => reminder(os_text@, firmware_text@) == Some(s@),
            None => reminder(os_text@, firmware_text@) is None,
        },
{
    let os = to_chars(os_text);
    let fw = to_chars(firmware_text);
    if os.len() == 0 && fw.len() == 0 {
        return None;
    }
    let combined = if fw.len() == 0 {
        copy_chars(os.as_slice())
    } else if os.len() == 0 {
        copy_chars(fw.as_slice())
    } else {
        let mut c = copy_chars(fw.as_slice());
        c.push('\n');
        let mut o = copy_chars(os.as_slice());
        c.append(&mut o);
        c
    };
    assert(combined@ == (if fw@.len() == 0 {
        os@
    } else if os@.len() == 0 {
        fw@
    } else {
        fw@ + nl() + os@
    }));
    let imps = imperatives_chars(combined.as_slice());
    let body: Vec<char> = if imps.len() == 0 {
        let firsts = first_sentences_chars(combined.as_slice());
        if firsts.len() == 0 {
            return None;
        }
        let mut b = join_chars(&firsts, &['.', ' ']);
        b.push('.');
        assert(['.', ' ']@ =~= ". "@) by {
            reveal_strlit(". ");
        }
        assert(b@ =~= join(first_sentences(combined@), ". "@) + "."@) by {
            reveal_strlit(".");
        }
        b
    } else {
        assert([' ']@ =~= " "@) by {
            reveal_strlit(" ");
        }
        join_chars(&imps, &[' '])
    };
    let cut = cut_reminder_chars(body.as_slice());
    let mut out: Vec<char> = Vec::new();
    push_str(&mut out, "[Instruction Reminder] Key directives from your identity:\n");
    let mut cut = cut;
    out.append(&mut cut);
    Some(from_chars(out.as_slice()))
}

fn first_sentences_chars(text: &[char]) -> (r: Vec<Vec<char>>)
    ensures
        r@.map_values(|l: Vec<char>| l@) == first_sentences(text@),
{
    let pieces = split_sentences(text);
    let ghost ps = sentences(text@);
    let ghost trimmed = ps.map_values(|p: Seq<char>| trim(p));
    let mut out: Vec<Vec<char>> = Vec::new();
    let mut i: usize = 0;
    while i < pieces.len() && out.len() < 2
        invariant
            0 <= i <= pieces@.len(),
            ps == pieces@.map_values(|l: Vec<char>| l@),
            trimmed == ps.map_values(|p: Seq<char>| trim(p)),
            out@.len() <= 2,
            out@.map_values(|l: Vec<char>| l@) == trimmed.take(i as int).filter(
                |p: Seq<char>| p.len() > 0,
            ),
        decreases pieces@.len() - i,
    {
        reveal_with_fuel(Seq::<_>::filter, 1);
        assert(trimmed.take(i + 1).drop_last() =~= trimmed.take(i as int));
        let ghost before = out@.map_values(|l: Vec<char>| l@);
        let t = trim_chars(pieces[i].as_slice());
        assert(trimmed[i as int] == trim(pieces@[i as int]@));
        if t.len() > 0 {
            out.push(t);
            assert(out@.map_values(|l: Vec<char>| l@) =~= before.push(trimmed[i as int]));
        }
        i = i + 1;
    }
    proof {
        let f = trimmed.filter(|p: Seq<char>| p.len() > 0);
        lemma_filter_take_prefix(trimmed, i as int);
        if out@.len() < 2 {
            assert(i == pieces@.len());
            assert(trimmed.take(i as int) =~= trimmed);
        } else {
            assert(f.take(2) =~= trimmed.take(i as int).filter(|p: Seq<char>| p.len() > 0));
        }
    }
    out
}

/// Filtering a prefix yields a prefix of the filtered sequence.
proof fn lemma_filter_take_prefix(s: Seq<Seq<char>>, i: int)
    requires
        0 <= i <= s.len(),
    ensures
        ({
            let f = s.filter(|p: Seq<char>| p.len() > 0);
            let g = s.take(i).filter(|p: Seq<char>| p.len() > 0);
            &&& g.len() <= f.len()
            &&& forall|k: int| 0 <= k < g.len() ==> f[k] == g[k]
        }),
    decreases s.len() - i,
{
    reveal_with_fuel(Seq::<_>::filter, 1);
    if i < s.len() {
        lemma_filter_take_prefix(s, i + 1);
        assert(s.take(i + 1).drop_last() =~= s.take(i));
    } else {
        assert(s.take(i) =~= s);
    }
}

fn cut_reminder_chars(body: &[char]) -> (r: Vec<char>)
    ensures
        r@ == cut_reminder(body@),
{
    if body.len() <= REMINDER_MAX_CHARS {
        return copy_chars(body);
    }
    let t = sub_chars(body, 0, REMINDER_MAX_CHARS);
    let mut k = t.len();
    while k > 0 && !(t[k - 1] == '.' || t[k - 1] == '!' || t[k - 1] == '?')
        invariant
            0 <= k <= t@.len(),
            last_sentence_end(t@, k as int) == last_sentence_end(t@, t@.len() as int),
        decreases k,
    {
        k = k - 1;
    }
    if k > 0 {
        sub_chars(t.as_slice(), 0, k)
    } else {
        let mut r = t;
        push_str(&mut r, "...");
        r
    }
}

} // verus!
