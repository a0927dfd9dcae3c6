//! Byte-level views of UTF-8 text: character boundaries, snapping an offset
//! to a boundary, slicing at boundaries and searching for ASCII patterns.

use vstd::prelude::*;
use vstd::string::StringSliceAdditionalSpecFns;
use vstd::utf8::*;

use crate::text::utf8;

verus! {

broadcast use {
    vstd::string::group_string_axioms,
    vstd::utf8::encode_utf8_decode_utf8,
    vstd::utf8::encode_utf8_valid_utf8,
    vstd::utf8::is_char_boundary_start_end_of_seq,
};

/// The largest character boundary at or before `pos` (the length of the
/// text when `pos` is past its end).
pub open spec fn floor_boundary(b: Seq<u8>, pos: int) -> int
    decreases pos,
{
    if pos >= b.len() {
        b.len() as int
    } else if pos <= 0 {
        0
    } else if is_char_boundary(b, pos) {
        pos
    } else {
        floor_boundary(b, pos - 1)
    }
}

/// The smallest character boundary at or after `pos` (clamped to the text).
pub open spec fn ceil_boundary(b: Seq<u8>, pos: int) -> int
    decreases b.len() - pos,
{
    if pos >= b.len() {
        b.len() as int
    } else if pos <= 0 {
        0
    } else if is_char_boundary(b, pos) {
        pos
    } else {
        ceil_boundary(b, pos + 1)
    }
}

pub proof fn lemma_floor_boundary(b: Seq<u8>, pos: int)
    requires
        valid_utf8(b),
    ensures
        0 <= floor_boundary(b, pos) <= b.len(),
        pos >= 0 ==> floor_boundary(b, pos) <= pos || floor_boundary(b, pos) == b.len(),
        pos < b.len() ==> floor_boundary(b, pos) <= pos || pos < 0,
        is_char_boundary(b, floor_boundary(b, pos)),
        forall|y: int| 0 <= y <= pos && y <= b.len() && #[trigger] is_char_boundary(b, y)
            ==> y <= floor_boundary(b, pos),
    decreases pos,
{
    if pos >= b.len() {
    } else if pos <= 0 {
    } else if is_char_boundary(b, pos) {
    } else {
        lemma_floor_boundary(b, pos - 1);
    }
}

pub proof fn lemma_ceil_boundary(b: Seq<u8>, pos: int)
    requires
        valid_utf8(b),
    ensures
        0 <= ceil_boundary(b, pos) <= b.len(),
        pos <= b.len() ==> pos <= ceil_boundary(b, pos) || pos < 0,
        is_char_boundary(b, ceil_boundary(b, pos)),
        forall|y: int| pos <= y <= b.len() && #[trigger] is_char_boundary(b, y) ==> ceil_boundary(
            b,
            pos,
        ) <= y,
    decreases b.len() - pos,
{
    if pos >= b.len() {
    } else if pos <= 0 {
    } else if is_char_boundary(b, pos) {
    } else {
        lemma_ceil_boundary(b, pos + 1);
    }
}

/// In valid UTF-8, a character boundary before the end is followed by
/// another boundary at most four bytes later.
pub proof fn lemma_next_boundary_within_four(b: Seq<u8>, i: int)
    requires
        valid_utf8(b),
        is_char_boundary(b, i),
        0 <= i < b.len(),
    ensures
        exists|k: int| 1 <= k <= 4 && i + k <= b.len() && #[trigger] is_char_boundary(b, i + k),
    decreases b.len(),
{
    let l = length_of_first_scalar(b);
    let rest = pop_first_scalar(b);
    assert(1 <= l <= 4 && l <= b.len());
    assert(rest.len() == b.len() - l);
    if i == 0 {
        assert(is_char_boundary(rest, 0));
        assert(is_char_boundary(b, i + l));
    } else {
        assert(is_char_boundary(rest, i - l));
        if i - l < rest.len() {
            lemma_next_boundary_within_four(rest, i - l);
            let k = choose|k: int|
                1 <= k <= 4 && (i - l) + k <= rest.len() && #[trigger] is_char_boundary(
                    rest,
                    (i - l) + k,
                );
            assert(is_char_boundary(b, i + k));
        } else {
            assert(i - l == rest.len());
            assert(i == b.len());
        }
    }
}

/// Every byte of ASCII text is a character boundary.
pub proof fn lemma_ascii_all_boundaries(s: Seq<char>, i: int)
    requires
        is_ascii_chars(s),
        0 <= i <= utf8(s).len(),
    ensures
        is_char_boundary(utf8(s), i),
    decreases s.len(),
{
    let b = utf8(s);
    if i == 0 || i == b.len() {
    } else {
        is_ascii_chars_encode_utf8(s);
        assert(b[i] == s[i] as u8);
        assert(!is_continuation_byte(b[i])) by {
            assert((s[i] as u32) < 128);
        }
        is_char_boundary_iff_not_is_continuation_byte(b, i);
    }
}

/// A boundary of a text at or before `end` is also a boundary of its
/// first `end` bytes.
pub proof fn lemma_boundary_in_prefix(b: Seq<u8>, end: int, i: int)
    requires
        valid_utf8(b),
        is_char_boundary(b, end),
        is_char_boundary(b, i),
        0 <= i <= end <= b.len(),
    ensures
        valid_utf8(b.subrange(0, end)),
        is_char_boundary(b.subrange(0, end), i),
{
    valid_utf8_split(b, end);
    let p = b.subrange(0, end);
    if i < end {
        is_char_boundary_iff_not_is_continuation_byte(b, i);
        is_char_boundary_iff_not_is_continuation_byte(p, i);
    } else {
        is_char_boundary_start_end_of_seq(p);
    }
}

/// Snap a byte offset to the nearest char boundary at or before `pos`.
pub fn floor_char_boundary(text: &str, pos: usize) -> (r: usize)
    ensures
        r == floor_boundary(utf8(text@), pos as int),
{
    if pos >= text.as_bytes().len() {
        return text.as_bytes().len();
    }
    let mut p = pos;
    while p > 0 && !text.is_char_boundary(p)
        invariant
            p <= pos < utf8(text@).len(),
            floor_boundary(utf8(text@), p as int) == floor_boundary(utf8(text@), pos as int),
        decreases p,
    {
        p = p - 1;
    }
    p
}

/// The byte offset just past the first character that starts at or after
/// `pos` has been reached: the smallest boundary at or after `pos`.
pub fn ceil_char_boundary(text: &str, pos: usize) -> (r: usize)
    ensures
        r == ceil_boundary(utf8(text@), pos as int),
{
    if pos >= text.as_bytes().len() {
        return text.as_bytes().len();
    }
    if pos == 0 {
        return 0;
    }
    let mut p = pos;
    while p < text.as_bytes().len() && !text.is_char_boundary(p)
        invariant
            0 < pos <= p <= utf8(text@).len(),
            ceil_boundary(utf8(text@), p as int) == ceil_boundary(utf8(text@), pos as int),
        decreases utf8(text@).len() - p,
    {
        p = p + 1;
    }
    p
}

/// The part of `text` between two character boundaries.
pub fn byte_slice(text: &str, start: usize, end: usize) -> (r: &str)
    requires
        start <= end <= utf8(text@).len(),
        is_char_boundary(utf8(text@), start as int),
        is_char_boundary(utf8(text@), end as int),
    ensures
        utf8(r@) == utf8(text@).subrange(start as int, end as int),
{
    let ghost b = utf8(text@);
    proof {
        lemma_boundary_in_prefix(b, end as int, start as int);
    }
    let (pre, _) = text.split_at(end);
    assert(pre.spec_bytes() =~= b.subrange(0, end as int));
    let (_, mid) = pre.split_at(start);
    assert(mid.spec_bytes() =~= b.subrange(start as int, end as int));
    mid
}

/// An owned copy of the part of `text` between two character boundaries.
pub fn byte_slice_string(text: &str, start: usize, end: usize) -> (r: String)
    requires
        start <= end <= utf8(text@).len(),
        is_char_boundary(utf8(text@), start as int),
        is_char_boundary(utf8(text@), end as int),
    ensures
        utf8(r@) == utf8(text@).subrange(start as int, end as int),
{
    byte_slice(text, start, end).to_owned()
}

/// `pat` occurs in `w` starting at byte `i`.
pub open spec fn occurs_at(w: Seq<u8>, pat: Seq<u8>, i: int) -> bool {
    0 <= i && i + pat.len() <= w.len() && w.subrange(i, i + pat.len()) == pat
}

/// The last start index below `k` at which `pat` occurs in `w`, or -1.
pub open spec fn rfind_below(w: Seq<u8>, pat: Seq<u8>, k: int) -> int
    decreases k,
{
    if k <= 0 {
        -1
    } else if occurs_at(w, pat, k - 1) {
        k - 1
    } else {
        rfind_below(w, pat, k - 1)
    }
}

/// The start of the last occurrence of `pat` in `w`, or -1 when there is none.
pub open spec fn rfind(w: Seq<u8>, pat: Seq<u8>) -> int {
    rfind_below(w, pat, w.len() + 1int)
}

pub proof fn lemma_rfind_below(w: Seq<u8>, pat: Seq<u8>, k: int)
    ensures
        -1 <= rfind_below(w, pat, k) < k || (k <= 0 && rfind_below(w, pat, k) == -1),
        rfind_below(w, pat, k) >= 0 ==> occurs_at(w, pat, rfind_below(w, pat, k)),
    decreases k,
{
    if k > 0 && !occurs_at(w, pat, k - 1) {
        lemma_rfind_below(w, pat, k - 1);
    }
}

/// Last occurrence of `pat` inside the window `b[lo..hi]`, as an offset
/// from `lo`.
pub fn rfind_in(b: &[u8], lo: usize, hi: usize, pat: &[u8]) -> (r: Option<usize>)
    requires
        lo <= hi <= b@.len(),
        pat@.len() > 0,
    ensures
        rfind(b@.subrange(lo as int, hi as int), pat@) >= 0 ==> r == Some(
            rfind(b@.subrange(lo as int, hi as int), pat@) as usize,
        ),
        rfind(b@.subrange(lo as int, hi as int), pat@) < 0 ==> r is None,
{
    let ghost w = b@.subrange(lo as int, hi as int);
    let n = hi - lo;
    let m = pat.len();
    if m > n {
        proof {
            lemma_rfind_skip(w, pat@, w.len() + 1int, 0);
        }
        return None;
    }
    // candidate start positions, from the last one down
    let mut k: usize = n - m + 1;
    proof {
        lemma_rfind_skip(w, pat@, w.len() + 1int, k as int);
    }
    while k > 0
        invariant
            w == b@.subrange(lo as int, hi as int),
            n == w.len(),
            m == pat@.len(),
            m <= n,
            lo <= hi <= b@.len(),
            0 <= k <= n - m + 1,
            rfind_below(w, pat@, k as int) == rfind(w, pat@),
        decreases k,
    {
        let i = k - 1;
        let mut j: usize = 0;
        let mut matched = true;
        while j < m
            invariant
                0 <= j <= m,
                i + m <= n,
                n == hi - lo,
                lo <= hi <= b@.len(),
                w == b@.subrange(lo as int, hi as int),
                m == pat@.len(),
                matched ==> forall|t: int| 0 <= t < j ==> w[i + t] == pat@[t],
                !matched ==> !occurs_at(w, pat@, i as int),
            decreases m - j,
        {
            if matched && b[lo + i + j] != pat[j] {
                matched = false;
                assert(w.subrange(i as int, i + m)[j as int] != pat@[j as int]);
            }
            j = j + 1;
        }
        if matched {
            assert(w.subrange(i as int, i + m) =~= pat@);
            return Some(i);
        }
        k = i;
    }
    None
}

/// Positions too close to the end for `pat` to fit can be skipped.
proof fn lemma_rfind_skip(w: Seq<u8>, pat: Seq<u8>, k: int, k2: int)
    requires
        0 <= k2 <= k,
        k2 >= w.len() - pat.len() + 1,
    ensures
        rfind_below(w, pat, k) == rfind_below(w, pat, k2),
    decreases k,
{
    if k > k2 {
        assert(!occurs_at(w, pat, k - 1));
        lemma_rfind_skip(w, pat, k - 1, k2);
    }
}

/// The position right after an ASCII byte is a character boundary.
pub proof fn lemma_after_ascii_is_boundary(b: Seq<u8>, i: int)
    requires
        valid_utf8(b),
        1 <= i <= b.len(),
        b[i - 1] < 128,
    ensures
        is_char_boundary(b, i),
{
    if i < b.len() {
        is_char_boundary_iff_not_is_continuation_byte(b, i - 1);
        is_char_boundary_iff_not_is_continuation_byte(b, i);
        // a byte below 0x80 is a complete character, so the next byte
        // cannot continue it
        lemma_ascii_byte_ends_char(b, i - 1);
    }
}

proof fn lemma_ascii_byte_ends_char(b: Seq<u8>, j: int)
    requires
        valid_utf8(b),
        0 <= j < b.len() - 1,
        b[j] < 128,
    ensures
        is_char_boundary(b, j + 1),
    decreases b.len(),
{
    let l = length_of_first_scalar(b);
    let rest = pop_first_scalar(b);
    if j == 0 {
        assert(is_leading_byte_width_1(b[0]));
        assert(l == 1);
        assert(is_char_boundary(rest, 0));
    } else if j < l {
        // b[j] is a continuation byte of the first character, impossible
        assert(is_continuation_byte(b[j]));
        assert(false);
    } else {
        assert(rest[j - l] == b[j]);
        if j - l < rest.len() - 1 {
            lemma_ascii_byte_ends_char(rest, j - l);
        } else {
            assert(j + 1 - l == rest.len());
            is_char_boundary_start_end_of_seq(rest);
        }
        assert(is_char_boundary(b, j + 1));
    }
}


/// The first start index at or after `k` at which `pat` occurs in `w`, or -1.
pub open spec fn find_from(w: Seq<u8>, pat: Seq<u8>, k: int) -> int
    decreases w.len() + 1 - k,
{
    if k > w.len() || k < 0 {
        -1
    } else if occurs_at(w, pat, k) {
        k
    } else {
        find_from(w, pat, k + 1)
    }
}

/// The start of the first occurrence of `pat` in `w`, or -1 (`str::find`).
pub open spec fn find(w: Seq<u8>, pat: Seq<u8>) -> int {
    find_from(w, pat, 0)
}

pub proof fn lemma_find_from(w: Seq<u8>, pat: Seq<u8>, k: int)
    ensures
        find_from(w, pat, k) == -1 || (k <= find_from(w, pat, k) && occurs_at(
            w,
            pat,
            find_from(w, pat, k),
        )),
    decreases w.len() + 1 - k,
{
    if 0 <= k <= w.len() && !occurs_at(w, pat, k) {
        lemma_find_from(w, pat, k + 1);
    }
}

/// First occurrence of `pat` in `b`.
pub fn find_in(b: &[u8], pat: &[u8]) -> (r: Option<usize>)
    ensures
        find(b@, pat@) >= 0 ==> r == Some(find(b@, pat@) as usize),
        find(b@, pat@) < 0 ==> r is None,
{
    let n = b.len();
    let m = pat.len();
    let mut k: usize = 0;
    while k <= n
        invariant
            n == b@.len(),
            m == pat@.len(),
            0 <= k <= n + 1,
            find_from(b@, pat@, k as int) == find(b@, pat@),
        decreases n + 1 - k,
    {
        let mut matched = m <= n - k;
        let mut j: usize = 0;
        while matched && j < m
            invariant
                0 <= j <= m,
                n == b@.len(),
                m == pat@.len(),
                k <= n,
                matched ==> k + m <= n,
                matched ==> forall|t: int| 0 <= t < j ==> b@[k + t] == pat@[t],
                !matched ==> !occurs_at(b@, pat@, k as int),
            decreases m - j,
        {
            if b[k + j] != pat[j] {
                matched = false;
                assert(b@.subrange(k as int, k + m)[j as int] != pat@[j as int]);
            }
            j = j + 1;
        }
        if matched {
            assert(b@.subrange(k as int, k + m) =~= pat@);
            return Some(k);
        }
        if k == n {
            assert(find_from(b@, pat@, (n + 1) as int) == -1);
            return None;
        }
        k = k + 1;
    }
    None
}

} // verus!
