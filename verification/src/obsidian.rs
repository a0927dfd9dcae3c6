//! Obsidian notes: wikilinks, frontmatter and tags, note files, templates
//! and `obsidian://` links.

use regex::Regex;
use vstd::prelude::*;

use crate::injection::regex_valid;
use crate::policy::JsonValue;
use crate::learning::{lemma_text_le_total, lemma_text_le_transitive, text_le};
use crate::text::{
    contains_chars, copy_chars, ends_with, ends_with_chars, from_chars, lowercase, push_str,
    replace_all, replaced, starts_with, starts_with_chars, str_eq, sub_chars, to_chars,
    to_lowercase, trim, trim_chars, utf8,
};
use std::path::Path;
use crate::utf8_text::{byte_slice_string, floor_boundary, floor_char_boundary, lemma_floor_boundary};
use vstd::utf8::decode_utf8;

verus! {

broadcast use {
    vstd::string::group_string_axioms,
    vstd::utf8::encode_utf8_valid_utf8,
    vstd::utf8::is_char_boundary_start_end_of_seq,
};

/// A parsed `[[target|display]]` wikilink with optional heading anchor.
#[derive(Debug, Clone, PartialEq, Eq)]
pub struct WikiLink {
    pub target: String,
    pub display: Option<String>,
    pub heading: Option<String>,
}

/// `s` with every leading copy of `p` removed (`str::trim_start_matches`).
pub open spec fn strip_leading(s: Seq<char>, p: Seq<char>) -> Seq<char>
    decreases s.len(),
{
    if p.len() > 0 && p.len() <= s.len() && s.take(p.len() as int) == p {
        strip_leading(s.skip(p.len() as int), p)
    } else {
        s
    }
}

/// `s` with every trailing copy of `p` removed (`str::trim_end_matches`).
pub open spec fn strip_trailing(s: Seq<char>, p: Seq<char>) -> Seq<char>
    decreases s.len(),
{
    if p.len() > 0 && p.len() <= s.len() && s.skip(s.len() - p.len()) == p {
        strip_trailing(s.take(s.len() - p.len()), p)
    } else {
        s
    }
}

/// The index of the first `c` in `s`, or -1.
pub open spec fn first_index(s: Seq<char>, c: char) -> int
    decreases s.len(),
{
    if s.len() == 0 {
        -1
    } else if s[0] == c {
        0
    } else if first_index(s.drop_first(), c) < 0 {
        -1
    } else {
        1 + first_index(s.drop_first(), c)
    }
}

pub proof fn lemma_first_index(s: Seq<char>, c: char)
    ensures
        -1 <= first_index(s, c) < s.len(),
        first_index(s, c) >= 0 ==> s[first_index(s, c)] == c,
        forall|j: int| 0 <= j < s.len() && (first_index(s, c) < 0 || j < first_index(s, c)) ==> s[j]
            != c,
    decreases s.len(),
{
    if s.len() > 0 {
        lemma_first_index(s.drop_first(), c);
        assert forall|j: int|
            0 <= j < s.len() && (first_index(s, c) < 0 || j < first_index(s, c)) implies s[j]
            != c by {
            if j > 0 {
                assert(s[j] == s.drop_first()[j - 1]);
            }
        }
    }
}

/// The part of `s` before its first `c` (all of `s` when there is none).
pub open spec fn before_first(s: Seq<char>, c: char) -> Seq<char> {
    if first_index(s, c) >= 0 {
        s.take(first_index(s, c))
    } else {
        s
    }
}

/// The part of `s` after its first `c`, if there is one.
pub open spec fn after_first(s: Seq<char>, c: char) -> Option<Seq<char>> {
    if first_index(s, c) >= 0 {
        Some(s.skip(first_index(s, c) + 1))
    } else {
        None
    }
}

/// What a wikilink string denotes: its target, display text and heading.
pub open spec fn wikilink_parts(raw: Seq<char>) -> (Seq<char>, Option<Seq<char>>, Option<Seq<char>>) {
    let inner = strip_trailing(strip_leading(raw, "[["@), "]]"@);
    let target_part = before_first(inner, '|');
    (before_first(target_part, '#'), after_first(inner, '|'), after_first(target_part, '#'))
}

/// The wikilink text for a target, an optional heading and an optional
/// display text: `[[target#heading|display]]`.
pub open spec fn wikilink_text(target: Seq<char>, heading: Option<Seq<char>>, display: Option<Seq<char>>) -> Seq<char> {
    "[["@ + target + match heading {
        Some(h) => "#"@ + h,
        None => Seq::<char>::empty(),
    } + match display {
        Some(d) => "|"@ + d,
        None => Seq::<char>::empty(),
    } + "]]"@
}

/// `s` holds no `c`.
pub open spec fn lacks(s: Seq<char>, c: char) -> bool {
    forall|i: int| 0 <= i < s.len() ==> #[trigger] s[i] != c
}

proof fn lemma_first_index_none(s: Seq<char>, c: char)
    requires
        lacks(s, c),
    ensures
        first_index(s, c) == -1,
{
    lemma_first_index(s, c);
}

proof fn lemma_first_index_after(a: Seq<char>, b: Seq<char>, c: char)
    requires
        lacks(a, c),
        b.len() > 0,
        b[0] == c,
    ensures
        first_index(a + b, c) == a.len(),
{
    let s = a + b;
    lemma_first_index(s, c);
    assert(s[a.len() as int] == c);
    if first_index(s, c) >= 0 && first_index(s, c) < a.len() {
        assert(s[first_index(s, c)] == a[first_index(s, c)]);
    }
}

/// Parsing a written wikilink gives back its target, display text and
/// heading, when the target holds none of `[`, `]`, `#`, `|`, the heading
/// neither `]` nor `|`, and the display text no `]`.
pub proof fn lemma_wikilink_round_trip(
    target: Seq<char>,
    heading: Option<Seq<char>>,
    display: Option<Seq<char>>,
)
    requires
        lacks(target, '['),
        lacks(target, ']'),
        lacks(target, '#'),
        lacks(target, '|'),
        heading matches Some(h) ==> lacks(h, ']') && lacks(h, '|'),
        display matches Some(d) ==> lacks(d, ']'),
    ensures
        wikilink_parts(wikilink_text(target, heading, display)) == (target, display, heading),
{
    reveal_strlit("[[");
    reveal_strlit("]]");
    reveal_strlit("#");
    reveal_strlit("|");
    let hs = match heading {
        Some(h) => "#"@ + h,
        None => Seq::<char>::empty(),
    };
    let ds = match display {
        Some(d) => "|"@ + d,
        None => Seq::<char>::empty(),
    };
    let part = target + hs;
    let mid = part + ds;
    let open = "[["@;
    let close = "]]"@;
    let raw = wikilink_text(target, heading, display);
    assert(raw =~= open + (mid + close));
    let x = mid + close;
    assert(raw.take(2) =~= open);
    assert(raw.skip(2) =~= x);
    assert(strip_leading(raw, open) == strip_leading(x, open));
    assert(x[0] != '[') by {
        if target.len() > 0 {
            assert(x[0] == target[0]);
        } else if hs.len() > 0 {
            assert(x[0] == hs[0]);
        } else if ds.len() > 0 {
            assert(x[0] == ds[0]);
        } else {
            assert(x[0] == close[0]);
        }
    }
    assert(x.take(2) != open) by {
        assert(x.take(2)[0] == x[0]);
    }
    assert(strip_leading(x, open) == x);
    assert(x.skip(x.len() - 2) =~= close);
    assert(x.take(x.len() - 2) =~= mid);
    assert(strip_trailing(x, close) == strip_trailing(mid, close));
    assert(lacks(mid, ']')) by {
        assert forall|i: int| 0 <= i < mid.len() implies #[trigger] mid[i] != ']' by {
            if i < target.len() {
                assert(mid[i] == target[i]);
            } else if i < part.len() {
                assert(mid[i] == hs[i - target.len()]);
                if let Some(h) = heading {
                    if i > target.len() {
                        assert(hs[i - target.len()] == h[i - target.len() - 1]);
                    }
                }
            } else {
                assert(mid[i] == ds[i - part.len()]);
                if let Some(d) = display {
                    if i > part.len() {
                        assert(ds[i - part.len()] == d[i - part.len() - 1]);
                    }
                }
            }
        }
    }
    if mid.len() >= 2 {
        assert(mid.skip(mid.len() - 2)[1] == mid[mid.len() - 1]);
        assert(mid.skip(mid.len() - 2) != close);
    }
    assert(strip_trailing(mid, close) == mid);
    assert(lacks(part, '|')) by {
        assert forall|i: int| 0 <= i < part.len() implies #[trigger] part[i] != '|' by {
            if i < target.len() {
                assert(part[i] == target[i]);
            } else if let Some(h) = heading {
                if i > target.len() {
                    assert(part[i] == h[i - target.len() - 1]);
                }
            }
        }
    }
    match display {
        Some(d) => {
            lemma_first_index_after(part, ds, '|');
            assert(mid.take(part.len() as int) =~= part);
            assert(mid.skip(part.len() as int + 1) =~= d);
        },
        None => {
            assert(mid =~= part);
            lemma_first_index_none(part, '|');
        },
    }
    assert(before_first(mid, '|') == part);
    assert(after_first(mid, '|') == display);
    match heading {
        Some(h) => {
            lemma_first_index_after(target, hs, '#');
            assert(part.take(target.len() as int) =~= target);
            assert(part.skip(target.len() as int + 1) =~= h);
        },
        None => {
            assert(part =~= target);
            lemma_first_index_none(target, '#');
        },
    }
}

pub open spec fn opt_view(o: Option<String>) -> Option<Seq<char>> {
    match o {
        Some(s) => Some(s@),
        None => None,
    }
}

fn find_char(v: &[char], c: char) -> (r: Option<usize>)
    ensures
        first_index(v@, c) >= 0 ==> r is Some && r->0 == first_index(v@, c),
        first_index(v@, c) < 0 ==> r is None,
        r matches Some(i) ==> i < v@.len(),
{
    let mut i: usize = 0;
    while i < v.len()
        invariant
            0 <= i <= v@.len(),
            forall|j: int| 0 <= j < i ==> v@[j] != c,
        decreases v@.len() - i,
    {
        if v[i] == c {
            proof {
                lemma_first_index(v@, c);
            }
            return Some(i);
        }
        i = i + 1;
    }
    proof {
        lemma_first_index(v@, c);
    }
    None
}

fn split_at_first(v: &[char], c: char) -> (r: (Vec<char>, Option<Vec<char>>))
    ensures
        r.0@ == before_first(v@, c),
        match r.1 {
            Some(a) => after_first(v@, c) == Some(a@),
            None => after_first(v@, c) is None,
        },
{
    proof {
        lemma_first_index(v@, c);
    }
    let n = v.len();
    match find_char(v, c) {
        Some(i) => (sub_chars(v, 0, i), Some(sub_chars(v, i + 1, n))),
        None => (copy_chars(v), None),
    }
}

fn strip_leading_chars(v: &[char], p: &[char]) -> (r: Vec<char>)
    ensures
        r@ == strip_leading(v@, p@),
{
    let mut s = copy_chars(v);
    while p.len() > 0 && p.len() <= s.len() && crate::text::starts_with_chars(s.as_slice(), p)
        invariant
            strip_leading(s@, p@) == strip_leading(v@, p@),
        decreases s@.len(),
    {
        assert(s@.take(p@.len() as int) =~= p@);
        let ghost before = s@;
        s = sub_chars(s.as_slice(), p.len(), s.len());
        assert(s@ =~= before.skip(p@.len() as int));
    }
    s
}

pub(crate) fn strip_trailing_chars(v: &[char], p: &[char]) -> (r: Vec<char>)
    ensures
        r@ == strip_trailing(v@, p@),
{
    let mut s = copy_chars(v);
    while p.len() > 0 && p.len() <= s.len() && crate::text::ends_with_chars(s.as_slice(), p)
        invariant
            strip_trailing(s@, p@) == strip_trailing(v@, p@),
        decreases s@.len(),
    {
        assert(s@.skip(s@.len() - p@.len()) =~= p@);
        s = sub_chars(s.as_slice(), 0, s.len() - p.len());
    }
    s
}

/// Parse a wikilink string into a structured `WikiLink`.
pub fn parse_wikilink(raw: &str) -> (r: WikiLink)
    ensures
        (r.target@, opt_view(r.display), opt_view(r.heading)) == wikilink_parts(raw@),
{
    let chars = to_chars(raw);
    let mut open: Vec<char> = Vec::new();
    open.push('[');
    open.push('[');
    let mut close: Vec<char> = Vec::new();
    close.push(']');
    close.push(']');
    proof {
        reveal_strlit("[[");
        reveal_strlit("]]");
    }
    assert(open@ =~= "[["@);
    assert(close@ =~= "]]"@);
    let inner = strip_trailing_chars(strip_leading_chars(chars.as_slice(), open.as_slice()).as_slice(), close.as_slice());
    let (target_part, display) = split_at_first(inner.as_slice(), '|');
    let (target, heading) = split_at_first(target_part.as_slice(), '#');
    WikiLink {
        target: from_chars(target.as_slice()),
        display: match display {
            Some(d) => Some(from_chars(d.as_slice())),
            None => None,
        },
        heading: match heading {
            Some(h) => Some(from_chars(h.as_slice())),
            None => None,
        },
    }
}

/// The pattern of a wikilink: `[[`, its inside (no `]`), `]]`.
pub const WIKILINK_PATTERN: &'static str = r"\[\[([^\]]+)\]\]";

/// The pattern of an inline tag: `#` and a name, at the start or after
/// whitespace.
pub const INLINE_TAG_PATTERN: &'static str = r"(?:^|\s)#([a-zA-Z][\w/-]*)";

/// The first capture group of every match of `pattern` in `text`, in order
/// (`Regex::captures_iter`); an entry is absent where the group took no part.
pub uninterp spec fn regex_group1_matches(pattern: Seq<char>, text: Seq<char>) -> Seq<
    Option<Seq<char>>,
>;

/// Compiles `pattern` with `Regex::new` and collects, for every match of
/// `captures_iter` on `text`, its first capture group; `None` when the
/// pattern does not compile.
#[verifier::external_body]
fn regex_captures_group1(pattern: &str, text: &str) -> (r: Option<Vec<Option<String>>>)
    ensures
        r is Some <==> regex_valid(pattern@),
        r matches Some(v) ==> v@.map_values(|o: Option<String>| opt_view(o))
            == regex_group1_matches(pattern@, text@),
{
    match Regex::new(pattern) {
        Ok(re) => Some(
            re.captures_iter(text).map(|c| c.get(1).map(|m| m.as_str().to_owned())).collect(),
        ),
        Err(_) => None,
    }
}

/// The captures of `pattern` in `text`, none when it does not compile.
pub open spec fn group1_or_none(pattern: Seq<char>, text: Seq<char>) -> Seq<Option<Seq<char>>> {
    if regex_valid(pattern) {
        regex_group1_matches(pattern, text)
    } else {
        seq![]
    }
}

fn captures_or_none(pattern: &str, text: &str) -> (r: Vec<Option<String>>)
    ensures
        r@.map_values(|o: Option<String>| opt_view(o)) == group1_or_none(pattern@, text@),
{
    match regex_captures_group1(pattern, text) {
        Some(v) => v,
        None => {
            let v: Vec<Option<String>> = Vec::new();
            assert(v@.map_values(|o: Option<String>| opt_view(o)) =~= Seq::<Option<Seq<char>>>::empty());
            v
        },
    }
}

/// The note a wikilink's inside points at: before any '|' and '#', trimmed.
pub open spec fn link_target(raw: Seq<char>) -> Seq<char> {
    trim(before_first(before_first(raw, '|'), '#'))
}

/// Add `t` to `acc` unless it is empty or already there.
pub open spec fn add_new(acc: Seq<Seq<char>>, t: Seq<char>) -> Seq<Seq<char>> {
    if t.len() > 0 && !acc.contains(t) {
        acc.push(t)
    } else {
        acc
    }
}

/// Add `t` to `acc` unless it is already there.
pub open spec fn add_absent(acc: Seq<Seq<char>>, t: Seq<char>) -> Seq<Seq<char>> {
    if !acc.contains(t) {
        acc.push(t)
    } else {
        acc
    }
}

/// The distinct, non-empty link targets of the captured link insides.
pub open spec fn collect_targets(caps: Seq<Option<Seq<char>>>) -> Seq<Seq<char>>
    decreases caps.len(),
{
    if caps.len() == 0 {
        seq![]
    } else {
        match caps.last() {
            Some(raw) => add_new(collect_targets(caps.drop_last()), link_target(raw)),
            None => collect_targets(caps.drop_last()),
        }
    }
}

fn contains_text(acc: &Vec<String>, t: &str) -> (r: bool)
    ensures
        r == acc@.map_values(|s: String| s@).contains(t@),
{
    let ghost av = acc@.map_values(|s: String| s@);
    let mut i: usize = 0;
    while i < acc.len()
        invariant
            0 <= i <= acc@.len(),
            av == acc@.map_values(|s: String| s@),
            forall|j: int| 0 <= j < i ==> av[j] != t@,
        decreases acc@.len() - i,
    {
        if str_eq(acc[i].as_str(), t) {
            assert(av[i as int] == t@);
            return true;
        }
        i = i + 1;
    }
    false
}

fn push_new(acc: &mut Vec<String>, t: String)
    ensures
        final(acc)@.map_values(|s: String| s@) == add_new(old(acc)@.map_values(|s: String| s@), t@),
{
    if t.as_str().as_bytes().len() > 0 && !contains_text(acc, t.as_str()) {
        let ghost a0 = acc@.map_values(|s: String| s@);
        acc.push(t);
        assert(acc@.map_values(|s: String| s@) =~= a0.push(t@));
    }
}

fn push_absent(acc: &mut Vec<String>, t: String)
    ensures
        final(acc)@.map_values(|s: String| s@) == add_absent(old(acc)@.map_values(|s: String| s@), t@),
{
    if !contains_text(acc, t.as_str()) {
        let ghost a0 = acc@.map_values(|s: String| s@);
        acc.push(t);
        assert(acc@.map_values(|s: String| s@) =~= a0.push(t@));
    }
}

/// Parse all wikilink targets from content (just the target names, not
/// display text), each once, in order of first appearance.
pub fn parse_wikilink_targets(content: &str) -> (r: Vec<String>)
    ensures
        r@.map_values(|s: String| s@) == collect_targets(group1_or_none(WIKILINK_PATTERN@, content@)),
{
    let caps = captures_or_none(WIKILINK_PATTERN, content);
    let ghost cv = caps@.map_values(|o: Option<String>| opt_view(o));
    let mut targets: Vec<String> = Vec::new();
    let mut i: usize = 0;
    while i < caps.len()
        invariant
            0 <= i <= caps@.len(),
            cv == caps@.map_values(|o: Option<String>| opt_view(o)),
            targets@.map_values(|s: String| s@) == collect_targets(cv.take(i as int)),
        decreases caps@.len() - i,
    {
        assert(cv.take(i + 1).drop_last() =~= cv.take(i as int));
        assert(cv.take(i + 1).last() == opt_view(caps@[i as int]));
        match &caps[i] {
            Some(raw) => {
                let chars = to_chars(raw.as_str());
                let (before_bar, _) = split_at_first(chars.as_slice(), '|');
                let (before_hash, _) = split_at_first(before_bar.as_slice(), '#');
                let t = from_chars(trim_chars(before_hash.as_slice()).as_slice());
                push_new(&mut targets, t);
            },
            None => {},
        }
        i = i + 1;
    }
    assert(cv.take(caps@.len() as int) =~= cv);
    targets
}

/// The tags a note's frontmatter declares, as far as tag extraction reads
/// them: a list (whose string items count), a comma-separated text, or
/// nothing usable.
#[derive(Debug)]
pub enum FrontmatterTags {
    List(Vec<Option<String>>),
    Text(String),
    Absent,
}

/// The string items of a list, in order.
pub open spec fn present(items: Seq<Option<Seq<char>>>) -> Seq<Seq<char>>
    decreases items.len(),
{
    if items.len() == 0 {
        seq![]
    } else {
        match items.last() {
            Some(s) => present(items.drop_last()).push(s),
            None => present(items.drop_last()),
        }
    }
}

/// The non-empty trimmed pieces, in order.
pub open spec fn nonempty_trimmed(ps: Seq<Seq<char>>) -> Seq<Seq<char>>
    decreases ps.len(),
{
    if ps.len() == 0 {
        seq![]
    } else if trim(ps.last()).len() > 0 {
        nonempty_trimmed(ps.drop_last()).push(trim(ps.last()))
    } else {
        nonempty_trimmed(ps.drop_last())
    }
}

pub open spec fn declared_tags(fm: FrontmatterTags) -> Seq<Seq<char>> {
    match fm {
        FrontmatterTags::List(items) => present(items@.map_values(|o: Option<String>| opt_view(o))),
        FrontmatterTags::Text(s) => nonempty_trimmed(crate::text::pieces(s@, ',')),
        FrontmatterTags::Absent => seq![],
    }
}

/// `acc` extended by the captured names not already in it.
pub open spec fn add_captured(acc: Seq<Seq<char>>, caps: Seq<Option<Seq<char>>>) -> Seq<Seq<char>>
    decreases caps.len(),
{
    if caps.len() == 0 {
        acc
    } else {
        match caps.last() {
            Some(t) => add_absent(add_captured(acc, caps.drop_last()), t),
            None => add_captured(acc, caps.drop_last()),
        }
    }
}

/// A note's tags: those its frontmatter declares, then each inline `#tag`
/// of its content that is not already among them.
pub open spec fn note_tags(fm: FrontmatterTags, content: Seq<char>) -> Seq<Seq<char>> {
    add_captured(declared_tags(fm), group1_or_none(INLINE_TAG_PATTERN@, content))
}

pub fn extract_tags(frontmatter: &FrontmatterTags, content: &str) -> (r: Vec<String>)
    ensures
        r@.map_values(|s: String| s@) == note_tags(*frontmatter, content@),
{
    let mut tags: Vec<String> = Vec::new();
    match frontmatter {
        FrontmatterTags::List(items) => {
            let ghost iv = items@.map_values(|o: Option<String>| opt_view(o));
            let mut i: usize = 0;
            while i < items.len()
                invariant
                    0 <= i <= items@.len(),
                    iv == items@.map_values(|o: Option<String>| opt_view(o)),
                    tags@.map_values(|s: String| s@) == present(iv.take(i as int)),
                decreases items@.len() - i,
            {
                assert(iv.take(i + 1).drop_last() =~= iv.take(i as int));
                assert(iv.take(i + 1).last() == opt_view(items@[i as int]));
                let ghost t0 = tags@.map_values(|s: String| s@);
                match &items[i] {
                    Some(s) => {
                        tags.push(s.clone());
                        assert(tags@.map_values(|s: String| s@) =~= t0.push(s@));
                    },
                    None => {},
                }
                i = i + 1;
            }
            assert(iv.take(items@.len() as int) =~= iv);
        },
        FrontmatterTags::Text(s) => {
            let chars = to_chars(s.as_str());
            let ps = crate::text::split_char(chars.as_slice(), ',');
            let ghost pv = ps@.map_values(|l: Vec<char>| l@);
            let mut i: usize = 0;
            while i < ps.len()
                invariant
                    0 <= i <= ps@.len(),
                    pv == ps@.map_values(|l: Vec<char>| l@),
                    tags@.map_values(|s: String| s@) == nonempty_trimmed(pv.take(i as int)),
                decreases ps@.len() - i,
            {
                assert(pv.take(i + 1).drop_last() =~= pv.take(i as int));
                assert(pv.take(i + 1).last() == ps@[i as int]@);
                let t = trim_chars(ps[i].as_slice());
                let ghost t0 = tags@.map_values(|s: String| s@);
                if t.len() > 0 {
                    let ts = from_chars(t.as_slice());
                    tags.push(ts);
                    assert(tags@.map_values(|s: String| s@) =~= t0.push(ts@));
                }
                i = i + 1;
            }
            assert(pv.take(ps@.len() as int) =~= pv);
        },
        FrontmatterTags::Absent => {
            assert(tags@.map_values(|s: String| s@) =~= Seq::<Seq<char>>::empty());
        },
    }
    let ghost declared = tags@.map_values(|s: String| s@);
    assert(declared == declared_tags(*frontmatter));
    let caps = captures_or_none(INLINE_TAG_PATTERN, content);
    let ghost cv = caps@.map_values(|o: Option<String>| opt_view(o));
    let mut i: usize = 0;
    assert(cv.take(0) =~= Seq::<Option<Seq<char>>>::empty());
    while i < caps.len()
        invariant
            0 <= i <= caps@.len(),
            cv == caps@.map_values(|o: Option<String>| opt_view(o)),
            tags@.map_values(|s: String| s@) == add_captured(declared, cv.take(i as int)),
        decreases caps@.len() - i,
    {
        assert(cv.take(i + 1).drop_last() =~= cv.take(i as int));
        assert(cv.take(i + 1).last() == opt_view(caps@[i as int]));
        match &caps[i] {
            Some(t) => {
                push_absent(&mut tags, t.clone());
            },
            None => {},
        }
        i = i + 1;
    }
    assert(cv.take(caps@.len() as int) =~= cv);
    tags
}

/// How a note splits into YAML frontmatter and body: a note that starts
/// with `---` and has a later line starting with `---` holds the text in
/// between as frontmatter; the body follows that line, without leading
/// newlines.
pub open spec fn frontmatter_split(raw: Seq<char>) -> Option<(Seq<char>, Seq<char>)> {
    let body = raw.skip(3);
    let end = crate::text::first_occurrence(body, "\n---"@);
    if crate::text::starts_with(raw, "---"@) && end >= 0 {
        Some((body.take(end), strip_leading(body.skip(end + 4), "\n"@)))
    } else {
        None
    }
}

/// Split a note into its frontmatter text and its body, when it has
/// frontmatter.
pub fn split_frontmatter(raw: &str) -> (r: Option<(String, String)>)
    ensures
        match frontmatter_split(raw@) {
            Some((fm, body)) => r matches Some((f, b)) && f@ == fm && b@ == body,
            None => r is None,
        },
{
    proof {
        reveal_strlit("---");
        reveal_strlit("\n---");
        reveal_strlit("\n");
    }
    let chars = to_chars(raw);
    let mut dashes: Vec<char> = Vec::new();
    dashes.push('-');
    dashes.push('-');
    dashes.push('-');
    assert(dashes@ =~= "---"@);
    if !crate::text::starts_with_chars(chars.as_slice(), dashes.as_slice()) {
        return None;
    }
    let body = sub_chars(chars.as_slice(), 3, chars.len());
    assert(body@ =~= raw@.skip(3));
    let mut marker: Vec<char> = Vec::new();
    marker.push('\n');
    marker.push('-');
    marker.push('-');
    marker.push('-');
    assert(marker@ =~= "\n---"@);
    match crate::text::find_chars(body.as_slice(), marker.as_slice()) {
        Some(end) => {
            let fm = sub_chars(body.as_slice(), 0, end);
            let after = sub_chars(body.as_slice(), end + 4, body.len());
            let mut newline: Vec<char> = Vec::new();
            newline.push('\n');
            assert(newline@ =~= "\n"@);
            let rest = strip_leading_chars(after.as_slice(), newline.as_slice());
            Some((from_chars(fm.as_slice()), from_chars(rest.as_slice())))
        },
        None => None,
    }
}

/// Where an excerpt is cut: the whole text when it fits, else the last
/// character boundary at or before `max`.
pub open spec fn excerpt_cut(b: Seq<u8>, max: int) -> int {
    if b.len() <= max {
        b.len() as int
    } else {
        floor_boundary(b, max)
    }
}

/// The excerpt of a text: all of it when it is at most `max` bytes, else
/// its first `max` bytes (backing off to a character boundary) and "...".
pub open spec fn excerpt(s: Seq<char>, max: int) -> Seq<char> {
    if utf8(s).len() <= max {
        s
    } else {
        decode_utf8(utf8(s).subrange(0, floor_boundary(utf8(s), max))) + "..."@
    }
}

pub fn truncate(s: &str, max: usize) -> (r: String)
    ensures
        r@ == excerpt(s@, max as int),
{
    let len = s.as_bytes().len();
    if len <= max {
        return s.to_owned();
    }
    let end = floor_char_boundary(s, max);
    proof {
        lemma_floor_boundary(utf8(s@), max as int);
    }
    let head = byte_slice_string(s, 0, end);
    assert(head@ == decode_utf8(utf8(head@))) by {
        broadcast use vstd::utf8::encode_utf8_decode_utf8;

    }
    let mut out = to_chars(head.as_str());
    crate::text::push_str(&mut out, "...");
    from_chars(out.as_slice())
}

/// The placeholder a template variable is written as: `{{key}}`.
pub open spec fn placeholder(key: Seq<char>) -> Seq<char> {
    "{{"@ + key + "}}"@
}

/// The template with each variable's placeholder replaced by its value, one
/// variable after another in the order given.
pub open spec fn with_vars(raw: Seq<char>, vars: Seq<(Seq<char>, Seq<char>)>) -> Seq<char>
    decreases vars.len(),
{
    if vars.len() == 0 {
        raw
    } else {
        replaced(with_vars(raw, vars.drop_last()), placeholder(vars.last().0), vars.last().1)
    }
}

/// A filled template: the variables first, then the built-in `{{date}}`
/// and `{{time}}`.
pub open spec fn filled_template(
    raw: Seq<char>,
    vars: Seq<(Seq<char>, Seq<char>)>,
    date: Seq<char>,
    time: Seq<char>,
) -> Seq<char> {
    replaced(replaced(with_vars(raw, vars), "{{date}}"@, date), "{{time}}"@, time)
}

pub open spec fn pair_views(v: Seq<(String, String)>) -> Seq<(Seq<char>, Seq<char>)> {
    v.map_values(|p: (String, String)| (p.0@, p.1@))
}

/// Fill a template's `{{key}}` placeholders from `vars`, in order, then
/// `{{date}}` and `{{time}}` from the texts given.
pub fn fill_template(raw: &str, vars: &[(String, String)], date: &str, time: &str) -> (r: String)
    ensures
        r@ == filled_template(raw@, pair_views(vars@), date@, time@),
{
    let ghost vs = pair_views(vars@);
    let mut cur = to_chars(raw);
    let mut i: usize = 0;
    while i < vars.len()
        invariant
            0 <= i <= vars@.len(),
            vs == pair_views(vars@),
            cur@ == with_vars(raw@, vs.take(i as int)),
        decreases vars@.len() - i,
    {
        let mut p: Vec<char> = Vec::new();
        push_str(&mut p, "{{");
        push_str(&mut p, vars[i].0.as_str());
        push_str(&mut p, "}}");
        proof {
            reveal_strlit("{{");
            reveal_strlit("}}");
        }
        let value = to_chars(vars[i].1.as_str());
        cur = replace_all(cur.as_slice(), p.as_slice(), value.as_slice());
        assert(vs.take(i + 1).drop_last() =~= vs.take(i as int));
        assert(vs.take(i + 1).last() == vs[i as int]);
        i = i + 1;
    }
    assert(vs.take(vars@.len() as int) =~= vs);
    let date_p = to_chars("{{date}}");
    let time_p = to_chars("{{time}}");
    proof {
        reveal_strlit("{{date}}");
        reveal_strlit("{{time}}");
    }
    let d = to_chars(date);
    let t = to_chars(time);
    let cur = replace_all(cur.as_slice(), date_p.as_slice(), d.as_slice());
    let cur = replace_all(cur.as_slice(), time_p.as_slice(), t.as_slice());
    from_chars(cur.as_slice())
}

pub open spec fn keys_of(es: Seq<(String, JsonValue)>) -> Seq<Seq<char>> {
    es.map_values(|e: (String, JsonValue)| e.0@)
}

/// The frontmatter written with a note: the entries given (none unless an
/// object is given), then `created_by: ironclad` and `created_at` where
/// they are missing.
pub open spec fn frontmatter_entries(extra: Option<JsonValue>, created_at: Seq<char>) -> Seq<
    (Seq<char>, Option<Seq<char>>),
> {
    let base: Seq<(String, JsonValue)> = match extra {
        Some(JsonValue::Object(es)) => es@,
        _ => Seq::empty(),
    };
    let added_by: Seq<(Seq<char>, Option<Seq<char>>)> = if keys_of(base).contains("created_by"@) {
        Seq::empty()
    } else {
        seq![("created_by"@, Some("ironclad"@))]
    };
    let added_at: Seq<(Seq<char>, Option<Seq<char>>)> = if keys_of(base).contains("created_at"@) {
        Seq::empty()
    } else {
        seq![("created_at"@, Some(created_at))]
    };
    base.map_values(|e: (String, JsonValue)| (e.0@, None::<Seq<char>>)) + added_by + added_at
}

/// An object's entries as the frontmatter contract sees them: each key,
/// with the text of the entries this library added.
pub open spec fn entries_seen(es: Seq<(String, JsonValue)>, added_from: int) -> Seq<
    (Seq<char>, Option<Seq<char>>),
> {
    Seq::new(
        es.len(),
        |i: int|
            (es[i].0@, if i < added_from {
                None::<Seq<char>>
            } else {
                match es[i].1 {
                    JsonValue::Str(s) => Some(s@),
                    _ => None::<Seq<char>>,
                }
            }),
    )
}

fn has_key(es: &Vec<(String, JsonValue)>, key: &str) -> (r: bool)
    ensures
        r == keys_of(es@).contains(key@),
{
    let ghost ks = keys_of(es@);
    let mut i: usize = 0;
    while i < es.len()
        invariant
            0 <= i <= es@.len(),
            ks == keys_of(es@),
            forall|j: int| 0 <= j < i ==> ks[j] != key@,
        decreases es@.len() - i,
    {
        if str_eq(es[i].0.as_str(), key) {
            assert(ks[i as int] == key@);
            return true;
        }
        i = i + 1;
    }
    false
}

/// The frontmatter for a new note: the given object's entries (an empty
/// object for any other value, or none given), with `created_by` set to
/// `ironclad` and `created_at` to the time text where they are missing.
pub fn frontmatter_with_defaults(extra: Option<JsonValue>, created_at: String) -> (r: JsonValue)
    ensures
        r matches JsonValue::Object(es) && entries_seen(
            es@,
            match extra {
                Some(JsonValue::Object(b)) => b@.len() as int,
                _ => 0,
            },
        ) == frontmatter_entries(extra, created_at@),
{
    let ghost ex = extra;
    let mut es: Vec<(String, JsonValue)> = match extra {
        Some(JsonValue::Object(m)) => m,
        _ => Vec::new(),
    };
    let ghost base = es@;
    let has_by = has_key(&es, "created_by");
    let has_at = has_key(&es, "created_at");
    proof {
        reveal_strlit("created_by");
        reveal_strlit("created_at");
        reveal_strlit("ironclad");
    }
    if !has_by {
        es.push(("created_by".to_owned(), JsonValue::Str("ironclad".to_owned())));
    }
    if !has_at {
        es.push(("created_at".to_owned(), JsonValue::Str(created_at)));
    }
    let ghost n = base.len() as int;
    assert(n == match ex {
        Some(JsonValue::Object(b)) => b@.len() as int,
        _ => 0,
    });
    assert(entries_seen(es@, n) =~= frontmatter_entries(ex, created_at@));
    JsonValue::Object(es)
}

/// The text of a note file: the frontmatter, when there is one, between
/// `---` lines and followed by a blank line, then the content.
pub open spec fn note_file_text(frontmatter_yaml: Option<Seq<char>>, content: Seq<char>) -> Seq<char> {
    match frontmatter_yaml {
        Some(y) => "---\n"@ + y + "---\n\n"@ + content,
        None => content,
    }
}

pub fn note_file_content(frontmatter_yaml: Option<&str>, content: &str) -> (r: String)
    ensures
        r@ == note_file_text(
            match frontmatter_yaml {
                Some(y) => Some(y@),
                None => None,
            },
            content@,
        ),
{
    let mut v: Vec<char> = Vec::new();
    match frontmatter_yaml {
        Some(y) => {
            push_str(&mut v, "---\n");
            push_str(&mut v, y);
            push_str(&mut v, "---\n\n");
        },
        None => {},
    }
    push_str(&mut v, content);
    from_chars(v.as_slice())
}

/// Whether a note path names no folder, so that the note goes to the
/// default folder: it holds neither `/` nor `\`.
pub fn uses_default_folder(rel_path: &str) -> (r: bool)
    ensures
        r == (!rel_path@.contains('/') && !rel_path@.contains('\\')),
{
    let v = to_chars(rel_path);
    let mut i: usize = 0;
    while i < v.len()
        invariant
            0 <= i <= v@.len(),
            v@ == rel_path@,
            forall|j: int| 0 <= j < i ==> v@[j] != '/' && v@[j] != '\\',
        decreases v@.len() - i,
    {
        if v[i] == '/' || v[i] == '\\' {
            return false;
        }
        i = i + 1;
    }
    true
}

/// Whether a byte is left as it is by URL encoding: ASCII letters and
/// digits, `-`, `.`, `_` and `~`.
pub open spec fn url_unreserved(b: u8) -> bool {
    (48 <= b <= 57) || (65 <= b <= 90) || (97 <= b <= 122) || b == 45 || b == 46 || b == 95
        || b == 126
}

/// The uppercase hexadecimal digit for `d < 16`.
pub open spec fn upper_hex(d: int) -> char {
    if d < 10 {
        (48 + d) as char
    } else {
        (55 + d) as char
    }
}

/// URL encoding of bytes: an unreserved byte stays, any other becomes `%`
/// and two uppercase hexadecimal digits.
pub open spec fn url_encoded(b: Seq<u8>) -> Seq<char>
    decreases b.len(),
{
    if b.len() == 0 {
        Seq::empty()
    } else {
        (if url_unreserved(b[0]) {
            seq![b[0] as char]
        } else {
            seq!['%', upper_hex(b[0] as int / 16), upper_hex(b[0] as int % 16)]
        }) + url_encoded(b.drop_first())
    }
}

/// Calls `urlencoding::encode`, which percent-encodes every byte of the
/// UTF-8 text except ASCII letters, digits, `-`, `.`, `_` and `~`, with
/// uppercase hexadecimal digits.
#[verifier::external_body]
fn url_encode(s: &str) -> (r: String)
    ensures
        r@ == url_encoded(utf8(s@)),
{
    urlencoding::encode(s).into_owned()
}

/// A note path without its `.md` ending.
pub open spec fn without_md(p: Seq<char>) -> Seq<char> {
    if ends_with(p, ".md"@) {
        p.take(p.len() - 3)
    } else {
        p
    }
}

/// The `obsidian://open` link for a note of a vault.
pub open spec fn obsidian_link(vault_name: Seq<char>, note_rel_path: Seq<char>) -> Seq<char> {
    "obsidian://open?vault="@ + url_encoded(utf8(vault_name)) + "&file="@ + url_encoded(
        utf8(without_md(note_rel_path)),
    )
}

/// The `obsidian://open` link for a note: the vault name and the note path
/// without `.md`, both URL-encoded.
pub fn obsidian_uri(vault_name: &str, note_rel_path: &str) -> (r: String)
    ensures
        r@ == obsidian_link(vault_name@, note_rel_path@),
{
    let v = to_chars(note_rel_path);
    let md = to_chars(".md");
    proof {
        reveal_strlit(".md");
    }
    let file = if ends_with_chars(v.as_slice(), md.as_slice()) {
        from_chars(sub_chars(v.as_slice(), 0, v.len() - 3).as_slice())
    } else {
        note_rel_path.to_owned()
    };
    let mut out: Vec<char> = Vec::new();
    push_str(&mut out, "obsidian://open?vault=");
    let ev = url_encode(vault_name);
    push_str(&mut out, ev.as_str());
    push_str(&mut out, "&file=");
    let ef = url_encode(file.as_str());
    push_str(&mut out, ef.as_str());
    from_chars(out.as_slice())
}

// ── The vault index ─────────────────────────────────────────────

/// A note of the vault: its file path, title (the file stem), body,
/// frontmatter as YAML text, tags, the notes it links to, and its file
/// times as `%Y-%m-%dT%H:%M:%S` text when known.
#[derive(Debug)]
pub struct ObsidianNote {
    pub path: String,
    pub title: String,
    pub content: String,
    pub frontmatter: Option<String>,
    pub tags: Vec<String>,
    pub outgoing_links: Vec<String>,
    pub created_at: Option<String>,
    pub modified_at: Option<String>,
}

pub open spec fn texts(v: Seq<String>) -> Seq<Seq<char>> {
    v.map_values(|s: String| s@)
}

pub struct NoteView {
    pub path: Seq<char>,
    pub title: Seq<char>,
    pub content: Seq<char>,
    pub frontmatter: Option<Seq<char>>,
    pub tags: Seq<Seq<char>>,
    pub links: Seq<Seq<char>>,
    pub created_at: Option<Seq<char>>,
    pub modified_at: Option<Seq<char>>,
}

impl View for ObsidianNote {
    type V = NoteView;

    open spec fn view(&self) -> NoteView {
        NoteView {
            path: self.path@,
            title: self.title@,
            content: self.content@,
            frontmatter: opt_view(self.frontmatter),
            tags: texts(self.tags@),
            links: texts(self.outgoing_links@),
            created_at: opt_view(self.created_at),
            modified_at: opt_view(self.modified_at),
        }
    }
}

fn clone_opt(o: &Option<String>) -> (r: Option<String>)
    ensures
        opt_view(r) == opt_view(*o),
{
    match o {
        Some(s) => Some(s.clone()),
        None => None,
    }
}

fn clone_texts(v: &Vec<String>) -> (r: Vec<String>)
    ensures
        texts(r@) == texts(v@),
{
    let mut out: Vec<String> = Vec::new();
    let mut i: usize = 0;
    while i < v.len()
        invariant
            0 <= i <= v@.len(),
            texts(out@) == texts(v@).take(i as int),
        decreases v@.len() - i,
    {
        let ghost o0 = texts(out@);
        out.push(v[i].clone());
        assert(texts(out@) =~= o0.push(v@[i as int]@));
        assert(texts(v@).take(i + 1) =~= texts(v@).take(i as int).push(v@[i as int]@));
        i = i + 1;
    }
    assert(texts(v@).take(v@.len() as int) =~= texts(v@));
    out
}

impl Clone for ObsidianNote {
    fn clone(&self) -> (r: Self)
        ensures
            r@ == self@,
    {
        ObsidianNote {
            path: self.path.clone(),
            title: self.title.clone(),
            content: self.content.clone(),
            frontmatter: clone_opt(&self.frontmatter),
            tags: clone_texts(&self.tags),
            outgoing_links: clone_texts(&self.outgoing_links),
            created_at: clone_opt(&self.created_at),
            modified_at: clone_opt(&self.modified_at),
        }
    }
}

pub open spec fn note_entries(ns: Seq<(String, ObsidianNote)>) -> Seq<(Seq<char>, NoteView)> {
    ns.map_values(|e: (String, ObsidianNote)| (e.0@, e.1@))
}

pub open spec fn name_entries(ns: Seq<(String, String)>) -> Seq<(Seq<char>, Seq<char>)> {
    ns.map_values(|e: (String, String)| (e.0@, e.1@))
}

/// The index of the first entry with the given key, or -1.
pub open spec fn key_index<V>(es: Seq<(Seq<char>, V)>, key: Seq<char>) -> int
    decreases es.len(),
{
    if es.len() == 0 {
        -1
    } else if es[0].0 == key {
        0
    } else if key_index(es.drop_first(), key) < 0 {
        -1
    } else {
        1 + key_index(es.drop_first(), key)
    }
}

pub(crate) proof fn lemma_key_index<V>(es: Seq<(Seq<char>, V)>, key: Seq<char>, i: int)
    requires
        0 <= i <= es.len(),
        forall|j: int| 0 <= j < i ==> (#[trigger] es[j]).0 != key,
        i == es.len() || es[i].0 == key,
    ensures
        key_index(es, key) == if i == es.len() {
            -1
        } else {
            i
        },
    decreases i,
{
    if i > 0 {
        assert forall|j: int| 0 <= j < i - 1 implies (#[trigger] es.drop_first()[j]).0 != key by {
            assert(es.drop_first()[j] == es[j + 1]);
        }
        if i < es.len() {
            assert(es.drop_first()[i - 1] == es[i]);
        }
        lemma_key_index(es.drop_first(), key, i - 1);
    }
}

/// `es` with the value under `key` replaced, or the entry added at the end.
pub open spec fn with_entry<V>(es: Seq<(Seq<char>, V)>, key: Seq<char>, v: V) -> Seq<(Seq<char>, V)> {
    if key_index(es, key) >= 0 {
        es.update(key_index(es, key), (key, v))
    } else {
        es.push((key, v))
    }
}

/// No key occurs twice among the entries.
pub open spec fn entry_keys_distinct<V>(es: Seq<(Seq<char>, V)>) -> bool {
    forall|i: int, j: int| 0 <= i < j < es.len() ==> (#[trigger] es[i]).0 != (#[trigger] es[j]).0
}

proof fn lemma_key_index_found<V>(es: Seq<(Seq<char>, V)>, key: Seq<char>)
    requires
        key_index(es, key) >= 0,
    ensures
        key_index(es, key) < es.len(),
        es[key_index(es, key)].0 == key,
    decreases es.len(),
{
    if es.len() > 0 && es[0].0 != key {
        lemma_key_index_found(es.drop_first(), key);
        assert(es[key_index(es, key)] == es.drop_first()[key_index(es.drop_first(), key)]);
    }
}

proof fn lemma_key_index_missing<V>(es: Seq<(Seq<char>, V)>, key: Seq<char>)
    requires
        key_index(es, key) < 0,
    ensures
        forall|j: int| 0 <= j < es.len() ==> (#[trigger] es[j]).0 != key,
    decreases es.len(),
{
    if es.len() > 0 {
        lemma_key_index_missing(es.drop_first(), key);
        assert forall|j: int| 0 <= j < es.len() implies (#[trigger] es[j]).0 != key by {
            if j > 0 {
                assert(es[j] == es.drop_first()[j - 1]);
            }
        }
    }
}

/// Setting the value under a key keeps the keys distinct.
pub proof fn lemma_with_entry_keys_distinct<V>(es: Seq<(Seq<char>, V)>, key: Seq<char>, v: V)
    requires
        entry_keys_distinct(es),
    ensures
        entry_keys_distinct(with_entry(es, key, v)),
{
    let r = with_entry(es, key, v);
    if key_index(es, key) >= 0 {
        lemma_key_index_found(es, key);
        assert forall|i: int, j: int| 0 <= i < j < r.len() implies (#[trigger] r[i]).0 != (
        #[trigger] r[j]).0 by {
            assert(r[i].0 == es[i].0);
            assert(r[j].0 == es[j].0);
        }
    } else {
        lemma_key_index_missing(es, key);
        assert forall|i: int, j: int| 0 <= i < j < r.len() implies (#[trigger] r[i]).0 != (
        #[trigger] r[j]).0 by {
            assert(r[i] == es[i]);
            if j < es.len() {
                assert(r[j] == es[j]);
            }
        }
    }
}

/// `Path::file_stem` of a path given as text, taken as UTF-8.
pub uninterp spec fn file_stem_of(path: Seq<char>) -> Option<Seq<char>>;

/// Calls `Path::file_stem` and takes the stem as UTF-8 text
/// (`OsStr::to_str`); the result is the named stem of the argument.
#[verifier::external_body]
fn path_file_stem(path: &str) -> (r: Option<String>)
    ensures
        opt_view(r) == file_stem_of(path@),
{
    Path::new(path).file_stem().and_then(|s| s.to_str()).map(|s| s.to_owned())
}

/// The title a note written at a path gets: the path's file stem, or the
/// path itself when it has none.
pub open spec fn title_for_path(path: Seq<char>) -> Seq<char> {
    match file_stem_of(path) {
        Some(stem) => stem,
        None => path,
    }
}

pub fn path_to_title(path: &str) -> (r: String)
    ensures
        r@ == title_for_path(path@),
{
    match path_file_stem(path) {
        Some(stem) => stem,
        None => path.to_owned(),
    }
}

/// The key a wikilink target is looked up under: the part before any `#`
/// and `|`, lowercased and trimmed.
pub open spec fn link_key(target: Seq<char>) -> Seq<char> {
    trim(lowercase(before_first(before_first(target, '#'), '|')))
}

/// Where a wikilink resolves: the path the name index gives for its key;
/// else, for a key holding `/`, the note stored under that key.
pub open spec fn resolution(
    names: Seq<(Seq<char>, Seq<char>)>,
    notes: Seq<(Seq<char>, NoteView)>,
    target: Seq<char>,
) -> Option<Seq<char>> {
    let k = link_key(target);
    if key_index(names, k) >= 0 {
        Some(names[key_index(names, k)].1)
    } else if k.contains('/') && key_index(notes, k) >= 0 {
        Some(k)
    } else {
        None
    }
}

/// The title a backlink search for a note path looks for: the path's file
/// stem (the path itself without one), lowercased.
pub open spec fn backlink_title(note_path: Seq<char>) -> Seq<char> {
    lowercase(
        match file_stem_of(note_path) {
            Some(s) => s,
            None => note_path,
        },
    )
}

/// Whether a note links to the title (comparing lowercased links).
pub open spec fn links_to(n: NoteView, title: Seq<char>) -> bool {
    exists|i: int| 0 <= i < n.links.len() && lowercase(#[trigger] n.links[i]) == title
}

/// Whether a note carries the tag (ignoring case).
pub open spec fn has_tag(n: NoteView, tag: Seq<char>) -> bool {
    exists|i: int| 0 <= i < n.tags.len() && lowercase(#[trigger] n.tags[i]) == lowercase(tag)
}

/// A search needs a query, a tag or a folder.
pub fn search_request_ok(has_query: bool, tag_count: usize, has_folder: bool) -> (r: bool)
    ensures
        r == (has_query || tag_count > 0 || has_folder),
{
    has_query || tag_count > 0 || has_folder
}

/// A content hit is kept when its path starts with the folder (if one is
/// given) and, if tags are given, one of its tags equals one of them,
/// ignoring case.
pub open spec fn hit_kept(key: Seq<char>, tags_of_note: Seq<Seq<char>>, folder: Option<Seq<char>>, tags: Seq<Seq<char>>) -> bool {
    &&& match folder {
        Some(f) => starts_with(key, f),
        None => true,
    }
    &&& (tags.len() == 0 || exists|i: int, j: int|
        0 <= i < tags.len() && 0 <= j < tags_of_note.len() && lowercase(#[trigger] tags_of_note[j])
            == lowercase(#[trigger] tags[i]))
}

/// The content hits kept by the folder and tag filters, in order, at most
/// `limit` of them: their positions among the hits (path and tags).
pub open spec fn kept_hits(
    hits: Seq<(Seq<char>, Seq<Seq<char>>)>,
    folder: Option<Seq<char>>,
    tags: Seq<Seq<char>>,
    limit: nat,
) -> Seq<int>
    decreases hits.len(),
{
    if hits.len() == 0 {
        seq![]
    } else {
        let prev = kept_hits(hits.drop_last(), folder, tags, limit);
        if prev.len() < limit && hit_kept(hits.last().0, hits.last().1, folder, tags) {
            prev.push(hits.len() - 1)
        } else {
            prev
        }
    }
}

fn hit_has_tag(note_tags: &[String], tags: &[String]) -> (r: bool)
    ensures
        r == (exists|i: int, j: int|
            0 <= i < tags@.len() && 0 <= j < note_tags@.len() && lowercase(#[trigger] texts(note_tags@)[j])
                == lowercase(#[trigger] texts(tags@)[i])),
{
    let ghost nv = texts(note_tags@);
    let ghost tv = texts(tags@);
    let mut i: usize = 0;
    while i < tags.len()
        invariant
            0 <= i <= tags@.len(),
            nv == texts(note_tags@),
            tv == texts(tags@),
            forall|a: int, b: int|
                0 <= a < i && 0 <= b < nv.len() ==> lowercase(#[trigger] nv[b]) != lowercase(#[trigger] tv[a]),
        decreases tags@.len() - i,
    {
        let t = to_lowercase(tags[i].as_str());
        let mut j: usize = 0;
        while j < note_tags.len()
            invariant
                0 <= i < tags@.len(),
                0 <= j <= note_tags@.len(),
                nv == texts(note_tags@),
                tv == texts(tags@),
                t@ == lowercase(tv[i as int]),
                forall|b: int| 0 <= b < j ==> lowercase(#[trigger] nv[b]) != t@,
            decreases note_tags@.len() - j,
        {
            let n = to_lowercase(note_tags[j].as_str());
            if str_eq(n.as_str(), t.as_str()) {
                assert(lowercase(nv[j as int]) == lowercase(tv[i as int]));
                return true;
            }
            j = j + 1;
        }
        i = i + 1;
    }
    false
}

/// The positions of the content hits (path and tags) that the folder and
/// tag filters keep, in order, at most `limit` of them.
pub fn filter_search_hits(
    hits: &[(String, Vec<String>)],
    folder: Option<&str>,
    tags: &[String],
    limit: usize,
) -> (r: Vec<usize>)
    ensures
        r@.map_values(|i: usize| i as int) == kept_hits(
            hits@.map_values(|h: (String, Vec<String>)| (h.0@, texts(h.1@))),
            match folder {
                Some(f) => Some(f@),
                None => None,
            },
            texts(tags@),
            limit as nat,
        ),
{
    let ghost hv = hits@.map_values(|h: (String, Vec<String>)| (h.0@, texts(h.1@)));
    let ghost fv = match folder {
        Some(f) => Some(f@),
        None => None,
    };
    let ghost tv = texts(tags@);
    let mut out: Vec<usize> = Vec::new();
    let mut i: usize = 0;
    while i < hits.len()
        invariant
            0 <= i <= hits@.len(),
            hv == hits@.map_values(|h: (String, Vec<String>)| (h.0@, texts(h.1@))),
            fv == match folder {
                Some(f) => Some(f@),
                None => None::<Seq<char>>,
            },
            tv == texts(tags@),
            out@.map_values(|k: usize| k as int) == kept_hits(hv.take(i as int), fv, tv, limit as nat),
            out@.len() <= limit,
        decreases hits@.len() - i,
    {
        assert(hv.take(i + 1).drop_last() =~= hv.take(i as int));
        assert(hv.take(i + 1).last() == hv[i as int]);
        assert(hv[i as int] == (hits@[i as int].0@, texts(hits@[i as int].1@)));
        let in_folder = match folder {
            Some(f) => {
                let kc = to_chars(hits[i].0.as_str());
                let fc = to_chars(f);
                starts_with_chars(kc.as_slice(), fc.as_slice())
            },
            None => true,
        };
        let tagged = tags.len() == 0 || hit_has_tag(hits[i].1.as_slice(), tags);
        let ghost o0 = out@.map_values(|k: usize| k as int);
        if out.len() < limit && in_folder && tagged {
            out.push(i);
            assert(out@.map_values(|k: usize| k as int) =~= o0.push(i as int));
        }
        i = i + 1;
    }
    assert(hv.take(hits@.len() as int) =~= hv);
    out
}

/// Some note with the title carries one of the tags.
pub open spec fn title_tagged(notes: Seq<(Seq<char>, NoteView)>, tags: Seq<Seq<char>>, title: Seq<char>) -> bool {
    exists|i: int, j: int|
        0 <= i < notes.len() && 0 <= j < tags.len() && (#[trigger] notes[i]).1.title == title && has_tag(
            notes[i].1,
            #[trigger] tags[j],
        )
}

/// Every tag of every note, note by note.
pub open spec fn tags_of(notes: Seq<(Seq<char>, NoteView)>) -> Seq<Seq<char>>
    decreases notes.len(),
{
    if notes.len() == 0 {
        seq![]
    } else {
        tags_of(notes.drop_last()) + notes.last().1.tags
    }
}

/// Texts in strictly increasing order.
pub open spec fn strictly_sorted(v: Seq<Seq<char>>) -> bool {
    forall|i: int, j: int|
        0 <= i < j < v.len() ==> text_le(#[trigger] v[i], #[trigger] v[j]) && v[i] != v[j]
}

proof fn lemma_text_le_refl(a: Seq<char>)
    ensures
        text_le(a, a),
    decreases a.len(),
{
    if a.len() > 0 {
        lemma_text_le_refl(a.drop_first());
    }
}

/// The index of the notes of a vault: notes by their path relative to the
/// vault root, and the name index from lowercased title to path.
pub struct VaultIndex {
    notes: Vec<(String, ObsidianNote)>,
    name_index: Vec<(String, String)>,
}

fn find_key<V>(es: &Vec<(String, V)>, key: &str) -> (r: Option<usize>)
    ensures
        match r {
            Some(i) => i == key_index(es@.map_values(|e: (String, V)| (e.0@, e.1)), key@) && i
                < es@.len(),
            None => key_index(es@.map_values(|e: (String, V)| (e.0@, e.1)), key@) == -1,
        },
{
    let ghost ks = es@.map_values(|e: (String, V)| (e.0@, e.1));
    let mut i: usize = 0;
    while i < es.len()
        invariant
            0 <= i <= es@.len(),
            ks == es@.map_values(|e: (String, V)| (e.0@, e.1)),
            forall|j: int| 0 <= j < i ==> (#[trigger] ks[j]).0 != key@,
        decreases es@.len() - i,
    {
        assert(ks[i as int].0 == es@[i as int].0@);
        if str_eq(es[i].0.as_str(), key) {
            proof {
                lemma_key_index(ks, key@, i as int);
            }
            return Some(i);
        }
        i = i + 1;
    }
    proof {
        lemma_key_index(ks, key@, i as int);
    }
    None
}

proof fn lemma_views_index<V>(es: Seq<(String, V)>, key: Seq<char>)
    ensures
        key_index(es.map_values(|e: (String, V)| (e.0@, e.1)), key) >= 0 ==> key_index(
            es.map_values(|e: (String, V)| (e.0@, e.1)),
            key,
        ) < es.len(),
    decreases es.len(),
{
    if es.len() > 0 {
        assert(es.map_values(|e: (String, V)| (e.0@, e.1)).drop_first() =~= es.drop_first().map_values(
            |e: (String, V)| (e.0@, e.1),
        ));
        lemma_views_index(es.drop_first(), key);
    }
}

impl VaultIndex {
    /// The notes, by path, in order of first indexing.
    pub closed spec fn notes(&self) -> Seq<(Seq<char>, NoteView)> {
        note_entries(self.notes@)
    }

    /// The name index: lowercased title and path.
    pub closed spec fn names(&self) -> Seq<(Seq<char>, Seq<char>)> {
        name_entries(self.name_index@)
    }

    /// Each path holds one note and each title one path.
    pub open spec fn keys_distinct(&self) -> bool {
        entry_keys_distinct(self.notes()) && entry_keys_distinct(self.names())
    }

    pub fn new() -> (r: Self)
        ensures
            r.notes().len() == 0,
            r.names().len() == 0,
            r.keys_distinct(),
    {
        VaultIndex { notes: Vec::new(), name_index: Vec::new() }
    }

    /// Forget every note, as before a fresh scan.
    pub fn clear(&mut self)
        ensures
            final(self).notes().len() == 0,
            final(self).names().len() == 0,
            final(self).keys_distinct(),
    {
        self.notes.clear();
        self.name_index.clear();
    }

    fn put_note(&mut self, key: String, note: ObsidianNote)
        ensures
            final(self).notes() == with_entry(old(self).notes(), key@, note@),
            final(self).names() == old(self).names(),
    {
        let ghost before = self.notes();
        let ghost kv = key@;
        let ghost nv = note@;
        proof {
            assert(note_entries(self.notes@) =~= self.notes@.map_values(
                |e: (String, ObsidianNote)| (e.0@, e.1),
            ).map_values(|e: (Seq<char>, ObsidianNote)| (e.0, e.1@)));
        }
        match self.find_note(key.as_str()) {
            Some(i) => {
                self.notes.remove(i);
                self.notes.insert(i, (key, note));
                assert(self.notes() =~= before.update(i as int, (kv, nv)));
            },
            None => {
                self.notes.push((key, note));
                assert(self.notes() =~= before.push((kv, nv)));
            },
        }
    }

    fn find_note(&self, key: &str) -> (r: Option<usize>)
        ensures
            match r {
                Some(i) => i == key_index(self.notes(), key@) && i < self.notes@.len(),
                None => key_index(self.notes(), key@) == -1,
            },
    {
        let ghost ns = self.notes();
        let mut i: usize = 0;
        while i < self.notes.len()
            invariant
                0 <= i <= self.notes@.len(),
                ns == note_entries(self.notes@),
                forall|j: int| 0 <= j < i ==> (#[trigger] ns[j]).0 != key@,
            decreases self.notes@.len() - i,
        {
            assert(ns[i as int].0 == self.notes@[i as int].0@);
            if str_eq(self.notes[i].0.as_str(), key) {
                proof {
                    lemma_key_index(ns, key@, i as int);
                }
                return Some(i);
            }
            i = i + 1;
        }
        proof {
            lemma_key_index(ns, key@, i as int);
        }
        None
    }

    fn find_name(&self, title_lower: &str) -> (r: Option<usize>)
        ensures
            match r {
                Some(i) => i == key_index(self.names(), title_lower@) && i < self.name_index@.len(),
                None => key_index(self.names(), title_lower@) == -1,
            },
    {
        let ghost ns = self.names();
        let mut i: usize = 0;
        while i < self.name_index.len()
            invariant
                0 <= i <= self.name_index@.len(),
                ns == name_entries(self.name_index@),
                forall|j: int| 0 <= j < i ==> (#[trigger] ns[j]).0 != title_lower@,
            decreases self.name_index@.len() - i,
        {
            assert(ns[i as int].0 == self.name_index@[i as int].0@);
            if str_eq(self.name_index[i].0.as_str(), title_lower) {
                proof {
                    lemma_key_index(ns, title_lower@, i as int);
                }
                return Some(i);
            }
            i = i + 1;
        }
        proof {
            lemma_key_index(ns, title_lower@, i as int);
        }
        None
    }

    fn set_name(&mut self, title_lower: String, key: String)
        ensures
            final(self).names() == with_entry(old(self).names(), title_lower@, key@),
            final(self).notes() == old(self).notes(),
    {
        let ghost before = self.names();
        let ghost t = title_lower@;
        let ghost k = key@;
        match self.find_name(title_lower.as_str()) {
            Some(i) => {
                self.name_index.remove(i);
                self.name_index.insert(i, (title_lower, key));
                assert(self.names() =~= before.update(i as int, (t, k)));
            },
            None => {
                self.name_index.push((title_lower, key));
                assert(self.names() =~= before.push((t, k)));
            },
        }
    }

    /// Index a note found by a scan: the name index keeps, for each title,
    /// the shortest path (in bytes) seen first.
    pub fn add_scanned(&mut self, key: String, note: ObsidianNote)
        ensures
            old(self).keys_distinct() ==> final(self).keys_distinct(),
            final(self).notes() == with_entry(old(self).notes(), key@, note@),
            ({
                let t = lowercase(note@.title);
                let i = key_index(old(self).names(), t);
                if i < 0 || utf8(key@).len() < utf8(old(self).names()[i].1).len() {
                    final(self).names() == with_entry(old(self).names(), t, key@)
                } else {
                    final(self).names() == old(self).names()
                }
            }),
    {
        let ghost notes0 = self.notes();
        let ghost names0 = self.names();
        let ghost kv = key@;
        let ghost nv = note@;
        let title_lower = to_lowercase(note.title.as_str());
        match self.find_name(title_lower.as_str()) {
            Some(i) => {
                if key.as_str().as_bytes().len() < self.name_index[i].1.as_str().as_bytes().len() {
                    self.set_name(title_lower, key.clone());
                }
            },
            None => {
                self.set_name(title_lower, key.clone());
            },
        }
        self.put_note(key, note);
        proof {
            if entry_keys_distinct(notes0) && entry_keys_distinct(names0) {
                lemma_with_entry_keys_distinct(notes0, kv, nv);
                lemma_with_entry_keys_distinct(names0, lowercase(nv.title), kv);
            }
        }
    }

    /// Index a note just written: its title now names it.
    pub fn add_written(&mut self, key: String, note: ObsidianNote)
        ensures
            old(self).keys_distinct() ==> final(self).keys_distinct(),
            final(self).notes() == with_entry(old(self).notes(), key@, note@),
            final(self).names() == with_entry(old(self).names(), lowercase(note@.title), key@),
    {
        let ghost notes0 = self.notes();
        let ghost names0 = self.names();
        let ghost kv = key@;
        let ghost nv = note@;
        let title_lower = to_lowercase(note.title.as_str());
        self.set_name(title_lower, key.clone());
        self.put_note(key, note);
        proof {
            if entry_keys_distinct(notes0) && entry_keys_distinct(names0) {
                lemma_with_entry_keys_distinct(notes0, kv, nv);
                lemma_with_entry_keys_distinct(names0, lowercase(nv.title), kv);
            }
        }
    }

    /// A copy of the note stored under the path.
    pub fn get_note(&self, rel_path: &str) -> (r: Option<ObsidianNote>)
        ensures
            key_index(self.notes(), rel_path@) >= 0 ==> (r matches Some(n) && n@ == self.notes()[key_index(
                self.notes(),
                rel_path@,
            )].1),
            key_index(self.notes(), rel_path@) < 0 ==> r is None,
    {
        match self.find_note(rel_path) {
            Some(i) => Some(self.notes[i].1.clone()),
            None => None,
        }
    }

    pub fn note_count(&self) -> (r: usize)
        ensures
            r == self.notes().len(),
    {
        self.notes.len()
    }

    /// Copies of every note with its path, in index order.
    pub fn all_notes(&self) -> (r: Vec<(String, ObsidianNote)>)
        ensures
            note_entries(r@) == self.notes(),
    {
        let ghost ns = self.notes();
        let mut out: Vec<(String, ObsidianNote)> = Vec::new();
        let mut i: usize = 0;
        while i < self.notes.len()
            invariant
                0 <= i <= self.notes@.len(),
                ns == note_entries(self.notes@),
                note_entries(out@) == ns.take(i as int),
            decreases self.notes@.len() - i,
        {
            let ghost o0 = note_entries(out@);
            out.push((self.notes[i].0.clone(), self.notes[i].1.clone()));
            assert(note_entries(out@) =~= o0.push(ns[i as int]));
            assert(ns.take(i + 1) =~= ns.take(i as int).push(ns[i as int]));
            i = i + 1;
        }
        assert(ns.take(self.notes@.len() as int) =~= ns);
        out
    }

    /// Copies of the notes that carry the tag, ignoring case.
    pub fn search_by_tag(&self, tag: &str) -> (r: Vec<ObsidianNote>)
        ensures
            r@.map_values(|n: ObsidianNote| n@) == self.notes().filter(
                |e: (Seq<char>, NoteView)| has_tag(e.1, tag@),
            ).map_values(|e: (Seq<char>, NoteView)| e.1),
    {
        let ghost ns = self.notes();
        let tag_lower = to_lowercase(tag);
        let mut out: Vec<ObsidianNote> = Vec::new();
        let mut i: usize = 0;
        while i < self.notes.len()
            invariant
                0 <= i <= self.notes@.len(),
                ns == note_entries(self.notes@),
                tag_lower@ == lowercase(tag@),
                out@.map_values(|n: ObsidianNote| n@) == ns.take(i as int).filter(
                    |e: (Seq<char>, NoteView)| has_tag(e.1, tag@),
                ).map_values(|e: (Seq<char>, NoteView)| e.1),
            decreases self.notes@.len() - i,
        {
            reveal_with_fuel(Seq::<_>::filter, 1);
            assert(ns.take(i + 1).drop_last() =~= ns.take(i as int));
            assert(ns.take(i + 1).last() == ns[i as int]);
            let ghost pre = ns.take(i as int).filter(|e: (Seq<char>, NoteView)| has_tag(e.1, tag@));
            let tags = &self.notes[i].1.tags;
            let ghost tv = texts(tags@);
            let mut found = false;
            let mut k: usize = 0;
            while k < tags.len()
                invariant_except_break
                    !found,
                invariant
                    0 <= k <= tags@.len(),
                    tv == texts(tags@),
                    tag_lower@ == lowercase(tag@),
                    forall|j: int| 0 <= j < k ==> lowercase(#[trigger] tv[j]) != lowercase(tag@),
                ensures
                    found ==> exists|j: int| 0 <= j < tv.len() && lowercase(#[trigger] tv[j]) == lowercase(tag@),
                    !found ==> forall|j: int| 0 <= j < tv.len() ==> lowercase(#[trigger] tv[j]) != lowercase(tag@),
                decreases tags@.len() - k,
            {
                let t = to_lowercase(tags[k].as_str());
                if str_eq(t.as_str(), tag_lower.as_str()) {
                    assert(lowercase(tv[k as int]) == lowercase(tag@));
                    found = true;
                    break;
                }
                k = k + 1;
            }
            assert(ns[i as int].1.tags == tv);
            if found {
                let ghost o0 = out@.map_values(|n: ObsidianNote| n@);
                out.push(self.notes[i].1.clone());
                assert(out@.map_values(|n: ObsidianNote| n@) =~= o0.push(ns[i as int].1));
                assert(pre.push(ns[i as int]).map_values(|e: (Seq<char>, NoteView)| e.1) =~= pre.map_values(
                    |e: (Seq<char>, NoteView)| e.1,
                ).push(ns[i as int].1));
            }
            i = i + 1;
        }
        assert(ns.take(self.notes@.len() as int) =~= ns);
        out
    }

    /// Resolve a wikilink target to a note path, ignoring case.
    pub fn resolve_wikilink(&self, target: &str) -> (r: Option<String>)
        ensures
            opt_view(r) == resolution(self.names(), self.notes(), target@),
    {
        let v = to_chars(target);
        let (a, _) = split_at_first(v.as_slice(), '#');
        let (b, _) = split_at_first(a.as_slice(), '|');
        let lower = to_lowercase(from_chars(b.as_slice()).as_str());
        let lv = trim_chars(to_chars(lower.as_str()).as_slice());
        let key = from_chars(lv.as_slice());
        assert(key@ == link_key(target@));
        match self.find_name(key.as_str()) {
            Some(i) => {
                assert(self.names()[i as int].1 == self.name_index@[i as int].1@);
                return Some(self.name_index[i].1.clone());
            },
            None => {},
        }
        if has_char(lv.as_slice(), '/') {
            if self.find_note(key.as_str()).is_some() {
                return Some(key);
            }
        }
        None
    }

    /// The notes that link to the note at the path, in index order.
    pub fn backlinks_for(&self, note_path: &str) -> (r: Vec<ObsidianNote>)
        ensures
            r@.map_values(|n: ObsidianNote| n@) == self.notes().filter(
                |e: (Seq<char>, NoteView)| links_to(e.1, backlink_title(note_path@)),
            ).map_values(|e: (Seq<char>, NoteView)| e.1),
    {
        let ghost ns = self.notes();
        let stem = match path_file_stem(note_path) {
            Some(s) => s,
            None => note_path.to_owned(),
        };
        let title = to_lowercase(stem.as_str());
        assert(title@ == backlink_title(note_path@));
        let ghost bt = title@;
        let mut out: Vec<ObsidianNote> = Vec::new();
        let mut i: usize = 0;
        while i < self.notes.len()
            invariant
                0 <= i <= self.notes@.len(),
                ns == note_entries(self.notes@),
                title@ == bt,
                out@.map_values(|n: ObsidianNote| n@) == ns.take(i as int).filter(
                    |e: (Seq<char>, NoteView)| links_to(e.1, bt),
                ).map_values(|e: (Seq<char>, NoteView)| e.1),
            decreases self.notes@.len() - i,
        {
            reveal_with_fuel(Seq::<_>::filter, 1);
            assert(ns.take(i + 1).drop_last() =~= ns.take(i as int));
            assert(ns.take(i + 1).last() == ns[i as int]);
            let ghost pre = ns.take(i as int).filter(|e: (Seq<char>, NoteView)| links_to(e.1, bt));
            let links = &self.notes[i].1.outgoing_links;
            let ghost lv = texts(links@);
            let mut found = false;
            let mut k: usize = 0;
            while k < links.len()
                invariant_except_break
                    !found,
                invariant
                    0 <= k <= links@.len(),
                    lv == texts(links@),
                    title@ == bt,
                    forall|j: int| 0 <= j < k ==> lowercase(#[trigger] lv[j]) != bt,
                ensures
                    found ==> exists|j: int| 0 <= j < lv.len() && lowercase(#[trigger] lv[j]) == bt,
                    !found ==> forall|j: int| 0 <= j < lv.len() ==> lowercase(#[trigger] lv[j]) != bt,
                decreases links@.len() - k,
            {
                let l = to_lowercase(links[k].as_str());
                if str_eq(l.as_str(), title.as_str()) {
                    assert(lowercase(lv[k as int]) == bt);
                    found = true;
                    break;
                }
                k = k + 1;
            }
            assert(ns[i as int].1.links == lv);
            if found {
                let ghost o0 = out@.map_values(|n: ObsidianNote| n@);
                out.push(self.notes[i].1.clone());
                assert(out@.map_values(|n: ObsidianNote| n@) =~= o0.push(ns[i as int].1));
                assert(pre.push(ns[i as int]).map_values(|e: (Seq<char>, NoteView)| e.1) =~= pre.map_values(
                    |e: (Seq<char>, NoteView)| e.1,
                ).push(ns[i as int].1));
            }
            i = i + 1;
        }
        assert(ns.take(self.notes@.len() as int) =~= ns);
        out
    }

    /// Copies of the notes whose path starts with the folder, with their
    /// paths.
    pub fn notes_in_folder(&self, folder: &str) -> (r: Vec<(String, ObsidianNote)>)
        ensures
            note_entries(r@) == self.notes().filter(
                |e: (Seq<char>, NoteView)| starts_with(e.0, folder@),
            ),
    {
        let ghost ns = self.notes();
        let fv = to_chars(folder);
        let mut out: Vec<(String, ObsidianNote)> = Vec::new();
        let mut i: usize = 0;
        while i < self.notes.len()
            invariant
                0 <= i <= self.notes@.len(),
                ns == note_entries(self.notes@),
                fv@ == folder@,
                note_entries(out@) == ns.take(i as int).filter(
                    |e: (Seq<char>, NoteView)| starts_with(e.0, folder@),
                ),
            decreases self.notes@.len() - i,
        {
            reveal_with_fuel(Seq::<_>::filter, 1);
            assert(ns.take(i + 1).drop_last() =~= ns.take(i as int));
            assert(ns.take(i + 1).last() == ns[i as int]);
            let kv = to_chars(self.notes[i].0.as_str());
            if starts_with_chars(kv.as_slice(), fv.as_slice()) {
                let ghost o0 = note_entries(out@);
                out.push((self.notes[i].0.clone(), self.notes[i].1.clone()));
                assert(note_entries(out@) =~= o0.push(ns[i as int]));
            }
            i = i + 1;
        }
        assert(ns.take(self.notes@.len() as int) =~= ns);
        out
    }

    fn note_has_tag(n: &ObsidianNote, tag: &str) -> (r: bool)
        ensures
            r == has_tag(n@, tag@),
    {
        let tag_lower = to_lowercase(tag);
        let ghost tv = texts(n.tags@);
        assert(n@.tags == tv);
        let mut k: usize = 0;
        while k < n.tags.len()
            invariant
                0 <= k <= n.tags@.len(),
                tv == texts(n.tags@),
                tag_lower@ == lowercase(tag@),
                forall|j: int| 0 <= j < k ==> lowercase(#[trigger] tv[j]) != lowercase(tag@),
            decreases n.tags@.len() - k,
        {
            let t = to_lowercase(n.tags[k].as_str());
            if str_eq(t.as_str(), tag_lower.as_str()) {
                assert(lowercase(tv[k as int]) == lowercase(tag@));
                assert(lowercase(n@.tags[k as int]) == lowercase(tag@));
                return true;
            }
            k = k + 1;
        }
        false
    }

    fn note_has_any_tag(n: &ObsidianNote, tags: &[String]) -> (r: bool)
        ensures
            r == (exists|j: int| 0 <= j < tags@.len() && has_tag(n@, #[trigger] tags@[j]@)),
    {
        let mut j: usize = 0;
        while j < tags.len()
            invariant
                0 <= j <= tags@.len(),
                forall|q: int| 0 <= q < j ==> !has_tag(n@, #[trigger] tags@[q]@),
            decreases tags@.len() - j,
        {
            if Self::note_has_tag(n, tags[j].as_str()) {
                return true;
            }
            j = j + 1;
        }
        false
    }

    /// Some note of the vault with this title carries one of the tags.
    fn title_is_tagged(&self, title: &str, tags: &[String]) -> (r: bool)
        ensures
            r == title_tagged(self.notes(), texts(tags@), title@),
    {
        let ghost ns = self.notes();
        let ghost tv = texts(tags@);
        let mut i: usize = 0;
        while i < self.notes.len()
            invariant
                0 <= i <= self.notes@.len(),
                ns == note_entries(self.notes@),
                tv == texts(tags@),
                forall|q: int|
                    0 <= q < i ==> (#[trigger] ns[q]).1.title != title@ || !(exists|j: int|
                        0 <= j < tv.len() && has_tag(ns[q].1, #[trigger] tv[j])),
            decreases self.notes@.len() - i,
        {
            let n = &self.notes[i].1;
            assert(ns[i as int].1 == n@);
            if str_eq(n.title.as_str(), title) && Self::note_has_any_tag(n, tags) {
                proof {
                    let j = choose|j: int| 0 <= j < tags@.len() && has_tag(n@, #[trigger] tags@[j]@);
                    assert(tv[j] == tags@[j]@);
                }
                return true;
            }
            proof {
                if n@.title == title@ {
                    assert forall|j: int| 0 <= j < tv.len() implies !has_tag(ns[i as int].1, #[trigger] tv[j]) by {
                        assert(tv[j] == tags@[j]@);
                    }
                }
            }
            i = i + 1;
        }
        false
    }

    /// The tag-and-folder search of the vault: the notes under the folder
    /// whose title is the title of a note carrying one of the tags (every
    /// note under the folder when no tag is given), at most `limit` of them.
    pub fn notes_tagged_in_folder(&self, tags: &[String], folder: &str, limit: usize) -> (r: Vec<
        (String, ObsidianNote),
    >)
        ensures
            note_entries(r@) == ({
                let m = self.notes().filter(
                    |e: (Seq<char>, NoteView)|
                        starts_with(e.0, folder@) && (tags@.len() == 0 || title_tagged(
                            self.notes(),
                            texts(tags@),
                            e.1.title,
                        )),
                );
                if limit < m.len() {
                    m.take(limit as int)
                } else {
                    m
                }
            }),
    {
        let ghost ns = self.notes();
        let ghost keep = |e: (Seq<char>, NoteView)|
            starts_with(e.0, folder@) && (tags@.len() == 0 || title_tagged(ns, texts(tags@), e.1.title));
        let fv = to_chars(folder);
        let mut out: Vec<(String, ObsidianNote)> = Vec::new();
        let mut i: usize = 0;
        while i < self.notes.len()
            invariant
                0 <= i <= self.notes@.len(),
                ns == note_entries(self.notes@),
                ns == self.notes(),
                fv@ == folder@,
                keep == (|e: (Seq<char>, NoteView)|
                    starts_with(e.0, folder@) && (tags@.len() == 0 || title_tagged(ns, texts(tags@), e.1.title))),
                note_entries(out@) == ns.take(i as int).filter(keep),
            decreases self.notes@.len() - i,
        {
            reveal_with_fuel(Seq::<_>::filter, 1);
            assert(ns.take(i + 1).drop_last() =~= ns.take(i as int));
            assert(ns.take(i + 1).last() == ns[i as int]);
            let kv = to_chars(self.notes[i].0.as_str());
            assert(ns[i as int].0 == self.notes@[i as int].0@);
            assert(ns[i as int].1 == self.notes@[i as int].1@);
            let in_folder = starts_with_chars(kv.as_slice(), fv.as_slice());
            let wanted = in_folder && (tags.len() == 0 || self.title_is_tagged(
                self.notes[i].1.title.as_str(),
                tags,
            ));
            if wanted {
                let ghost o0 = note_entries(out@);
                out.push((self.notes[i].0.clone(), self.notes[i].1.clone()));
                assert(note_entries(out@) =~= o0.push(ns[i as int]));
            }
            i = i + 1;
        }
        assert(ns.take(self.notes@.len() as int) =~= ns);
        let ghost full = out@;
        out.truncate(limit);
        proof {
            if limit < full.len() {
                assert(note_entries(out@) =~= note_entries(full).take(limit as int));
            }
        }
        out
    }

    /// Every tag of the vault once, in sorted order.
    pub fn all_tags(&self) -> (r: Vec<String>)
        ensures
            strictly_sorted(texts(r@)),
            forall|t: Seq<char>| texts(r@).contains(t) <==> tags_of(self.notes()).contains(t),
    {
        let ghost ns = self.notes();
        let mut out: Vec<String> = Vec::new();
        let mut i: usize = 0;
        while i < self.notes.len()
            invariant
                0 <= i <= self.notes@.len(),
                ns == note_entries(self.notes@),
                strictly_sorted(texts(out@)),
                forall|t: Seq<char>| texts(out@).contains(t) <==> tags_of(ns.take(i as int)).contains(t),
            decreases self.notes@.len() - i,
        {
            assert(ns.take(i + 1).drop_last() =~= ns.take(i as int));
            assert(ns.take(i + 1).last() == ns[i as int]);
            let tags = &self.notes[i].1.tags;
            let ghost tv = texts(tags@);
            let ghost base = tags_of(ns.take(i as int));
            assert(ns[i as int].1.tags == tv);
            let mut k: usize = 0;
            while k < tags.len()
                invariant
                    0 <= k <= tags@.len(),
                    tv == texts(tags@),
                    strictly_sorted(texts(out@)),
                    forall|t: Seq<char>| texts(out@).contains(t) <==> (base + tv.take(k as int)).contains(t),
                decreases tags@.len() - k,
            {
                let ghost before = texts(out@);
                insert_sorted(&mut out, tags[k].clone());
                assert(tv.take(k + 1) =~= tv.take(k as int).push(tv[k as int]));
                assert(base + tv.take(k + 1) =~= (base + tv.take(k as int)).push(tv[k as int]));
                assert forall|t: Seq<char>| texts(out@).contains(t) <==> (base + tv.take(k + 1)).contains(t) by {
                    lemma_push_contains(base + tv.take(k as int), tv[k as int], t);
                }
                k = k + 1;
            }
            assert(tv.take(tags@.len() as int) =~= tv);
            assert(tags_of(ns.take(i + 1)) == base + tv);
            i = i + 1;
        }
        assert(ns.take(self.notes@.len() as int) =~= ns);
        out
    }
}

impl Default for VaultIndex {
    fn default() -> (r: Self)
        ensures
            r.notes().len() == 0,
            r.names().len() == 0,
    {
        VaultIndex::new()
    }
}

proof fn lemma_push_contains<A>(s: Seq<A>, x: A, t: A)
    ensures
        s.push(x).contains(t) <==> (s.contains(t) || t == x),
{
    if s.push(x).contains(t) {
        let w = choose|w: int| 0 <= w < s.push(x).len() && s.push(x)[w] == t;
        if w < s.len() {
            assert(s[w] == t);
        }
    }
    if s.contains(t) {
        let w = choose|w: int| 0 <= w < s.len() && s[w] == t;
        assert(s.push(x)[w] == t);
    }
    if t == x {
        assert(s.push(x)[s.len() as int] == t);
    }
}

fn has_char(v: &[char], c: char) -> (r: bool)
    ensures
        r == v@.contains(c),
{
    let mut i: usize = 0;
    while i < v.len()
        invariant
            0 <= i <= v@.len(),
            forall|j: int| 0 <= j < i ==> v@[j] != c,
        decreases v@.len() - i,
    {
        if v[i] == c {
            assert(v@[i as int] == c);
            return true;
        }
        i = i + 1;
    }
    false
}

/// Insert a text into a strictly sorted list unless it is there already.
fn insert_sorted(out: &mut Vec<String>, t: String)
    requires
        strictly_sorted(texts(old(out)@)),
    ensures
        strictly_sorted(texts(final(out)@)),
        forall|x: Seq<char>| texts(final(out)@).contains(x) <==> (texts(old(out)@).contains(x) || x == t@),
{
    let ghost o0 = texts(out@);
    let mut i: usize = 0;
    while i < out.len()
        invariant
            0 <= i <= out@.len(),
            o0 == texts(out@),
            strictly_sorted(o0),
            forall|j: int| 0 <= j < i ==> o0[j] != t@,
        decreases out@.len() - i,
    {
        if str_eq(out[i].as_str(), t.as_str()) {
            assert(o0[i as int] == t@);
            return;
        }
        i = i + 1;
    }
    let key = to_chars(t.as_str());
    let mut j: usize = 0;
    while j < out.len()
        invariant
            0 <= j <= out@.len(),
            o0 == texts(out@),
            key@ == t@,
            forall|k: int| 0 <= k < j ==> text_le(#[trigger] o0[k], t@),
        ensures
            0 <= j <= out@.len(),
            forall|k: int| 0 <= k < j ==> text_le(#[trigger] o0[k], t@),
            j < out@.len() ==> !text_le(o0[j as int], t@),
        decreases out@.len() - j,
    {
        let other = to_chars(out[j].as_str());
        if !crate::learning::text_le_chars(other.as_slice(), key.as_slice()) {
            break;
        }
        j = j + 1;
    }
    proof {
        if j < o0.len() {
            lemma_text_le_total(o0[j as int], t@);
        }
        lemma_text_le_refl(t@);
    }
    let ghost tv = t@;
    out.insert(j, t);
    assert(texts(out@) =~= o0.insert(j as int, tv));
    proof {
        let n = texts(out@);
        assert forall|a: int, b: int| 0 <= a < b < n.len() implies text_le(#[trigger] n[a], #[trigger] n[b])
            && n[a] != n[b] by {
            if b < j {
                assert(n[a] == o0[a] && n[b] == o0[b]);
            } else if b == j {
                assert(n[a] == o0[a]);
            } else if a == j {
                assert(n[b] == o0[b - 1]);
                if b - 1 > j {
                    lemma_text_le_transitive(tv, o0[j as int], o0[b - 1]);
                }
            } else if a < j {
                assert(n[a] == o0[a]);
                assert(n[b] == o0[b - 1]);
            } else {
                assert(n[a] == o0[a - 1]);
                assert(n[b] == o0[b - 1]);
            }
        }
        assert forall|x: Seq<char>| n.contains(x) <==> (o0.contains(x) || x == tv) by {
            if n.contains(x) {
                let w = choose|w: int| 0 <= w < n.len() && n[w] == x;
                if w < j {
                    assert(o0[w] == x);
                } else if w > j {
                    assert(o0[w - 1] == x);
                }
            }
            if o0.contains(x) {
                let w = choose|w: int| 0 <= w < o0.len() && o0[w] == x;
                if w < j {
                    assert(n[w] == x);
                } else {
                    assert(n[w + 1] == x);
                }
            }
            if x == tv {
                assert(n[j as int] == x);
            }
        }
    }
}

} // verus!
