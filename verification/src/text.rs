//! Text primitives shared by the rest of the library: conversions between
//! `&str`, `String` and character vectors, and substring search over
//! character sequences.

use vstd::prelude::*;
use vstd::utf8::*;

verus! {

broadcast use {vstd::string::group_string_axioms, vstd::utf8::encode_utf8_decode_utf8};

/// Appending one character to a `String` extends its character view by that character.
pub assume_specification[ String::push ](s: &mut String, ch: char)
    ensures
        final(s)@ == old(s)@.push(ch),
;

/// The UTF-8 encoding of a character sequence.
pub open spec fn utf8(s: Seq<char>) -> Seq<u8> {
    encode_utf8(s)
}

/// The encoding of a concatenation is the concatenation of the encodings.
pub proof fn lemma_utf8_concat(a: Seq<char>, b: Seq<char>)
    ensures
        utf8(a + b) == utf8(a) + utf8(b),
    decreases a.len(),
{
    if a.len() == 0 {
        assert(a + b =~= b);
        assert(utf8(a) =~= Seq::<u8>::empty());
        assert(Seq::<u8>::empty() + utf8(b) =~= utf8(b));
    } else {
        lemma_utf8_concat(a.drop_first(), b);
        assert((a + b).drop_first() =~= a.drop_first() + b);
        assert((a + b)[0] == a[0]);
        assert(encode_scalar(a[0] as u32) + (utf8(a.drop_first()) + utf8(b)) =~= (encode_scalar(
            a[0] as u32,
        ) + utf8(a.drop_first())) + utf8(b));
    }
}

/// Two strings are equal exactly when their character views are.
pub fn str_eq(a: &str, b: &str) -> (r: bool)
    ensures
        r == (a@ == b@),
{
    let ab = a.as_bytes();
    let bb = b.as_bytes();
    if ab.len() != bb.len() {
        return false;
    }
    let mut i: usize = 0;
    while i < ab.len()
        invariant
            ab@ == utf8(a@),
            bb@ == utf8(b@),
            ab@.len() == bb@.len(),
            0 <= i <= ab@.len(),
            forall|j: int| 0 <= j < i ==> ab@[j] == bb@[j],
        decreases ab@.len() - i,
    {
        if ab[i] != bb[i] {
            return false;
        }
        i = i + 1;
    }
    assert(ab@ =~= bb@);
    assert(a@ == decode_utf8(utf8(a@)));
    assert(b@ == decode_utf8(utf8(b@)));
    true
}

/// The characters of a string slice, in order.
pub fn to_chars(s: &str) -> (v: Vec<char>)
    ensures
        v@ == s@,
{
    let mut v: Vec<char> = Vec::new();
    for c in it: s.chars()
        invariant
            v@ == it.seq().take(it.index() as int),
            it.seq() == s@,
    {
        v.push(c);
    }
    v
}

/// A `String` holding exactly the given characters.
pub fn from_chars(v: &[char]) -> (s: String)
    ensures
        s@ == v@,
{
    let mut s = String::new();
    let mut i: usize = 0;
    while i < v.len()
        invariant
            0 <= i <= v@.len(),
            s@ == v@.subrange(0, i as int),
        decreases v@.len() - i,
    {
        s.push(v[i]);
        assert(v@.subrange(0, i + 1) =~= v@.subrange(0, i as int).push(v@[i as int]));
        i = i + 1;
    }
    assert(v@.subrange(0, v@.len() as int) =~= v@);
    s
}


/// `str::to_lowercase`: the Unicode lowercase mapping of a text.
pub uninterp spec fn lowercase(s: Seq<char>) -> Seq<char>;

/// Calls `str::to_lowercase`; the result is the named lowercase mapping of
/// the argument.
#[verifier::external_body]
pub fn to_lowercase(s: &str) -> (r: String)
    ensures
        r@ == lowercase(s@),
{
    s.to_lowercase()
}

/// Unicode `White_Space`, the set that `char::is_whitespace` and the `trim`
/// family of `str` methods use.
pub open spec fn is_ws(c: char) -> bool {
    let u = c as u32;
    ||| 0x9 <= u <= 0xD
    ||| u == 0x20
    ||| u == 0x85
    ||| u == 0xA0
    ||| u == 0x1680
    ||| 0x2000 <= u <= 0x200A
    ||| u == 0x2028
    ||| u == 0x2029
    ||| u == 0x202F
    ||| u == 0x205F
    ||| u == 0x3000
}

pub fn char_is_ws(c: char) -> (r: bool)
    ensures
        r == is_ws(c),
{
    let u = c as u32;
    (0x9 <= u && u <= 0xD) || u == 0x20 || u == 0x85 || u == 0xA0 || u == 0x1680 || (0x2000 <= u
        && u <= 0x200A) || u == 0x2028 || u == 0x2029 || u == 0x202F || u == 0x205F || u == 0x3000
}

/// `s` without leading whitespace.
pub open spec fn trim_start(s: Seq<char>) -> Seq<char>
    decreases s.len(),
{
    if s.len() > 0 && is_ws(s[0]) {
        trim_start(s.drop_first())
    } else {
        s
    }
}

/// `s` without trailing whitespace.
pub open spec fn trim_end(s: Seq<char>) -> Seq<char>
    decreases s.len(),
{
    if s.len() > 0 && is_ws(s.last()) {
        trim_end(s.drop_last())
    } else {
        s
    }
}

/// `s` without leading or trailing whitespace.
pub open spec fn trim(s: Seq<char>) -> Seq<char> {
    trim_end(trim_start(s))
}

/// A copy of `v[lo..hi]`.
pub fn sub_chars(v: &[char], lo: usize, hi: usize) -> (r: Vec<char>)
    requires
        lo <= hi <= v@.len(),
    ensures
        r@ == v@.subrange(lo as int, hi as int),
{
    let mut r: Vec<char> = Vec::new();
    let mut i = lo;
    while i < hi
        invariant
            lo <= i <= hi <= v@.len(),
            r@ == v@.subrange(lo as int, i as int),
        decreases hi - i,
    {
        r.push(v[i]);
        assert(v@.subrange(lo as int, i + 1) =~= v@.subrange(lo as int, i as int).push(v@[i as int]));
        i = i + 1;
    }
    r
}

/// A copy of `b[lo..hi]`.
pub fn sub_bytes(b: &[u8], lo: usize, hi: usize) -> (r: Vec<u8>)
    requires
        lo <= hi <= b@.len(),
    ensures
        r@ == b@.subrange(lo as int, hi as int),
{
    let mut r: Vec<u8> = Vec::new();
    let mut i = lo;
    while i < hi
        invariant
            lo <= i <= hi <= b@.len(),
            r@ == b@.subrange(lo as int, i as int),
        decreases hi - i,
    {
        r.push(b[i]);
        assert(b@.subrange(lo as int, i + 1) =~= b@.subrange(lo as int, i as int).push(b@[i as int]));
        i = i + 1;
    }
    r
}

/// A copy of `v`.
pub fn copy_chars(v: &[char]) -> (r: Vec<char>)
    ensures
        r@ == v@,
{
    let r = sub_chars(v, 0, v.len());
    assert(v@.subrange(0, v@.len() as int) =~= v@);
    r
}

/// The characters of `v` without leading and trailing whitespace.
pub fn trim_chars(v: &[char]) -> (r: Vec<char>)
    ensures
        r@ == trim(v@),
{
    let n = v.len();
    let mut lo: usize = 0;
    assert(v@.subrange(0, n as int) =~= v@);
    while lo < n && char_is_ws(v[lo])
        invariant
            n == v@.len(),
            0 <= lo <= n,
            trim_start(v@.subrange(lo as int, n as int)) == trim_start(v@),
        decreases n - lo,
    {
        assert(v@.subrange(lo as int, n as int).drop_first() =~= v@.subrange(lo + 1, n as int));
        lo = lo + 1;
    }
    assert(v@.subrange(0, n as int) =~= v@);
    assert(trim_start(v@) == v@.subrange(lo as int, n as int));
    let mut hi: usize = n;
    while hi > lo && char_is_ws(v[hi - 1])
        invariant
            n == v@.len(),
            0 <= lo <= hi <= n,
            trim_end(v@.subrange(lo as int, hi as int)) == trim(v@),
        decreases hi,
    {
        assert(v@.subrange(lo as int, hi as int).drop_last() =~= v@.subrange(lo as int, hi - 1));
        hi = hi - 1;
    }
    sub_chars(v, lo, hi)
}

/// Whether two character slices are equal.
pub fn chars_eq(a: &[char], b: &[char]) -> (r: bool)
    ensures
        r == (a@ == b@),
{
    if a.len() != b.len() {
        return false;
    }
    let mut i: usize = 0;
    while i < a.len()
        invariant
            a@.len() == b@.len(),
            0 <= i <= a@.len(),
            forall|j: int| 0 <= j < i ==> a@[j] == b@[j],
        decreases a@.len() - i,
    {
        if a[i] != b[i] {
            return false;
        }
        i = i + 1;
    }
    assert(a@ =~= b@);
    true
}

/// `n` occurs in `h` starting at index `i`.
pub open spec fn occurs_at(h: Seq<char>, n: Seq<char>, i: int) -> bool {
    0 <= i && i + n.len() <= h.len() && h.subrange(i, i + n.len()) == n
}

/// `n` occurs somewhere in `h`.
pub open spec fn contains(h: Seq<char>, n: Seq<char>) -> bool {
    exists|i: int| occurs_at(h, n, i)
}

/// The first index at or after `k` where `n` occurs in `h`, or -1.
pub open spec fn first_occurrence_from(h: Seq<char>, n: Seq<char>, k: int) -> int
    decreases h.len() + 1 - k,
{
    if k > h.len() || k < 0 {
        -1
    } else if occurs_at(h, n, k) {
        k
    } else {
        first_occurrence_from(h, n, k + 1)
    }
}

/// The first index where `n` occurs in `h`, or -1 (`str::find`).
pub open spec fn first_occurrence(h: Seq<char>, n: Seq<char>) -> int {
    first_occurrence_from(h, n, 0)
}

pub proof fn lemma_first_occurrence(h: Seq<char>, n: Seq<char>, k: int, i: int)
    requires
        0 <= k <= i,
        forall|j: int| k <= j < i ==> !occurs_at(h, n, j),
        i > h.len() || occurs_at(h, n, i),
    ensures
        first_occurrence_from(h, n, k) == if i > h.len() {
            -1
        } else {
            i
        },
    decreases i - k,
{
    if k < i {
        lemma_first_occurrence(h, n, k + 1, i);
    }
}

/// The first occurrence of `n` in `h`.
pub fn find_chars(h: &[char], n: &[char]) -> (r: Option<usize>)
    ensures
        first_occurrence(h@, n@) >= 0 ==> r is Some && r->0 == first_occurrence(h@, n@),
        first_occurrence(h@, n@) < 0 ==> r is None,
        r matches Some(i) ==> occurs_at(h@, n@, i as int),
{
    match find_from(h, n, 0) {
        Some(i) => {
            proof {
                lemma_first_occurrence(h@, n@, 0, i as int);
            }
            Some(i)
        },
        None => {
            proof {
                lemma_first_occurrence(h@, n@, 0, h@.len() + 1int);
            }
            None
        },
    }
}

pub open spec fn starts_with(h: Seq<char>, n: Seq<char>) -> bool {
    n.len() <= h.len() && h.subrange(0, n.len() as int) == n
}

pub open spec fn ends_with(h: Seq<char>, n: Seq<char>) -> bool {
    n.len() <= h.len() && h.subrange(h.len() - n.len(), h.len() as int) == n
}

/// `n` occurs in `h` at index `i`.
pub fn matches_at(h: &[char], n: &[char], i: usize) -> (r: bool)
    ensures
        r == occurs_at(h@, n@, i as int),
{
    if i > h.len() || n.len() > h.len() - i {
        return false;
    }
    let hl = h.len();
    let mut j: usize = 0;
    while j < n.len()
        invariant
            hl == h@.len(),
            i + n@.len() <= h@.len(),
            0 <= j <= n@.len(),
            forall|t: int| 0 <= t < j ==> h@[i + t] == n@[t],
        decreases n@.len() - j,
    {
        if h[i + j] != n[j] {
            assert(h@.subrange(i as int, i + n@.len())[j as int] != n@[j as int]);
            return false;
        }
        j = j + 1;
    }
    assert(h@.subrange(i as int, i + n@.len()) =~= n@);
    true
}

/// `h` with every occurrence of `p` replaced by `r`, scanning left to right
/// without overlap (`str::replace` for a pattern that is not empty).
pub open spec fn replaced(h: Seq<char>, p: Seq<char>, r: Seq<char>) -> Seq<char>
    decreases h.len(),
{
    if p.len() == 0 || h.len() < p.len() {
        h
    } else if h.take(p.len() as int) == p {
        r + replaced(h.skip(p.len() as int), p, r)
    } else {
        seq![h[0]] + replaced(h.drop_first(), p, r)
    }
}

/// Replace every occurrence of `p` in `h` by `r`.
pub fn replace_all(h: &[char], p: &[char], r: &[char]) -> (out: Vec<char>)
    requires
        p@.len() > 0,
    ensures
        out@ == replaced(h@, p@, r@),
{
    let mut out: Vec<char> = Vec::new();
    let mut i: usize = 0;
    assert(h@.skip(0) =~= h@);
    while i < h.len()
        invariant
            0 <= i <= h@.len(),
            p@.len() > 0,
            out@ + replaced(h@.skip(i as int), p@, r@) == replaced(h@, p@, r@),
        decreases h@.len() - i,
    {
        let ghost rest = h@.skip(i as int);
        if matches_at(h, p, i) {
            assert(rest.take(p@.len() as int) =~= h@.subrange(i as int, i + p@.len()));
            assert(rest.skip(p@.len() as int) =~= h@.skip(i + p@.len()));
            let ghost o0 = out@;
            let mut k: usize = 0;
            while k < r.len()
                invariant
                    0 <= k <= r@.len(),
                    out@ == o0 + r@.take(k as int),
                decreases r@.len() - k,
            {
                out.push(r[k]);
                assert(r@.take(k + 1) =~= r@.take(k as int).push(r@[k as int]));
                assert(out@ =~= o0 + r@.take(k + 1));
                k = k + 1;
            }
            assert(r@.take(r@.len() as int) =~= r@);
            assert(o0 + (r@ + replaced(h@.skip(i + p@.len()), p@, r@)) =~= out@ + replaced(
                h@.skip(i + p@.len()),
                p@,
                r@,
            ));
            i = i + p.len();
        } else {
            proof {
                if rest.len() >= p@.len() {
                    assert(rest.take(p@.len() as int) =~= h@.subrange(i as int, i + p@.len()));
                }
            }
            assert(rest.drop_first() =~= h@.skip(i + 1));
            assert(rest[0] == h@[i as int]);
            let ghost o0 = out@;
            out.push(h[i]);
            proof {
                if rest.len() < p@.len() {
                    assert(replaced(rest, p@, r@) == rest);
                    assert(replaced(h@.skip(i + 1), p@, r@) == h@.skip(i + 1));
                    assert(rest =~= seq![h@[i as int]] + h@.skip(i + 1));
                }
            }
            assert(o0 + (seq![h@[i as int]] + replaced(h@.skip(i + 1), p@, r@)) =~= out@
                + replaced(h@.skip(i + 1), p@, r@));
            i = i + 1;
        }
    }
    assert(replaced(h@.skip(i as int), p@, r@) =~= Seq::<char>::empty());
    assert(out@ + Seq::<char>::empty() =~= out@);
    out
}

/// The first index at or after `from` where `n` occurs in `h`, if any.
pub fn find_from(h: &[char], n: &[char], from: usize) -> (r: Option<usize>)
    ensures
        match r {
            Some(i) => from <= i && occurs_at(h@, n@, i as int) && forall|j: int|
                from <= j < i ==> !occurs_at(h@, n@, j),
            None => forall|j: int| from <= j ==> !occurs_at(h@, n@, j),
        },
{
    let hl = h.len();
    if from > hl {
        return None;
    }
    let mut i = from;
    while i < hl
        invariant
            hl == h@.len(),
            from <= i <= hl,
            forall|j: int| from <= j < i ==> !occurs_at(h@, n@, j),
        decreases hl - i,
    {
        if matches_at(h, n, i) {
            return Some(i);
        }
        i = i + 1;
    }
    if matches_at(h, n, hl) {
        return Some(hl);
    }
    None
}

/// Whether `n` occurs in `h`.
pub fn contains_chars(h: &[char], n: &[char]) -> (r: bool)
    ensures
        r == contains(h@, n@),
{
    match find_from(h, n, 0) {
        Some(i) => {
            assert(occurs_at(h@, n@, i as int));
            true
        },
        None => false,
    }
}

/// Whether the literal or string `n` occurs in `h`.
pub fn contains_str(h: &[char], n: &str) -> (r: bool)
    ensures
        r == contains(h@, n@),
{
    let nc = to_chars(n);
    contains_chars(h, nc.as_slice())
}

pub fn starts_with_chars(h: &[char], n: &[char]) -> (r: bool)
    ensures
        r == starts_with(h@, n@),
{
    matches_at(h, n, 0)
}

pub fn ends_with_chars(h: &[char], n: &[char]) -> (r: bool)
    ensures
        r == ends_with(h@, n@),
{
    if n.len() > h.len() {
        return false;
    }
    matches_at(h, n, h.len() - n.len())
}

/// Append the characters of `s` to `v`.
pub fn push_str(v: &mut Vec<char>, s: &str)
    ensures
        final(v)@ == old(v)@ + s@,
{
    let mut c = to_chars(s);
    v.append(&mut c);
}

/// The decimal digit for `d < 10`.
pub open spec fn digit(d: nat) -> char {
    if d == 0 {
        '0'
    } else if d == 1 {
        '1'
    } else if d == 2 {
        '2'
    } else if d == 3 {
        '3'
    } else if d == 4 {
        '4'
    } else if d == 5 {
        '5'
    } else if d == 6 {
        '6'
    } else if d == 7 {
        '7'
    } else if d == 8 {
        '8'
    } else {
        '9'
    }
}

pub fn digit_char(d: usize) -> (c: char)
    requires
        d < 10,
    ensures
        c == digit(d as nat),
{
    if d == 0 {
        '0'
    } else if d == 1 {
        '1'
    } else if d == 2 {
        '2'
    } else if d == 3 {
        '3'
    } else if d == 4 {
        '4'
    } else if d == 5 {
        '5'
    } else if d == 6 {
        '6'
    } else if d == 7 {
        '7'
    } else if d == 8 {
        '8'
    } else {
        '9'
    }
}

/// The decimal representation of `n`, without leading zeros.
pub open spec fn decimal(n: nat) -> Seq<char>
    decreases n,
{
    if n < 10 {
        seq![digit(n)]
    } else {
        decimal(n / 10).push(digit(n % 10))
    }
}

pub proof fn lemma_decimal_len(n: nat)
    ensures
        decimal(n).len() >= 1,
        n >= 10 ==> decimal(n).len() >= 2,
    decreases n,
{
    if n >= 10 {
        lemma_decimal_len(n / 10);
    }
}

/// Distinct numbers have distinct decimal representations.
pub proof fn lemma_decimal_injective(n: nat, m: nat)
    requires
        decimal(n) == decimal(m),
    ensures
        n == m,
    decreases n,
{
    lemma_decimal_len(n);
    lemma_decimal_len(m);
    if n < 10 && m < 10 {
        assert(decimal(n)[0] == digit(n));
        assert(decimal(m)[0] == digit(m));
    } else if n >= 10 && m >= 10 {
        assert(decimal(n).drop_last() =~= decimal(n / 10));
        assert(decimal(m).drop_last() =~= decimal(m / 10));
        lemma_decimal_injective(n / 10, m / 10);
        assert(decimal(n).last() == digit(n % 10));
        assert(decimal(m).last() == digit(m % 10));
        assert(digit(n % 10) == digit(m % 10));
    }
}

/// The decimal representation of `n`, as `format!("{n}")` writes it.
pub fn decimal_chars(n: usize) -> (r: Vec<char>)
    ensures
        r@ == decimal(n as nat),
    decreases n,
{
    let c = digit_char(n % 10);
    if n < 10 {
        let mut r = Vec::new();
        r.push(c);
        r
    } else {
        let mut r = decimal_chars(n / 10);
        r.push(c);
        r
    }
}


/// `s` without one trailing carriage return.
pub open spec fn strip_cr(s: Seq<char>) -> Seq<char> {
    if s.len() > 0 && s.last() == '\r' {
        s.drop_last()
    } else {
        s
    }
}

/// The lines of `s` after the partial line `cur`, as `str::lines` yields
/// them: split at '\n', a '\r' before the '\n' removed, and no empty last
/// line after a final line ending.
pub open spec fn lines_from(s: Seq<char>, cur: Seq<char>) -> Seq<Seq<char>>
    decreases s.len(),
{
    if s.len() == 0 {
        if cur.len() == 0 {
            seq![]
        } else {
            seq![cur]
        }
    } else if s[0] == '\n' {
        seq![strip_cr(cur)] + lines_from(s.drop_first(), seq![])
    } else {
        lines_from(s.drop_first(), cur.push(s[0]))
    }
}

/// `str::lines`.
pub open spec fn lines(s: Seq<char>) -> Seq<Seq<char>> {
    lines_from(s, seq![])
}

/// The lines of `v`, as `str::lines` yields them.
pub fn split_lines(v: &[char]) -> (r: Vec<Vec<char>>)
    ensures
        r@.map_values(|l: Vec<char>| l@) == lines(v@),
{
    let mut out: Vec<Vec<char>> = Vec::new();
    let mut cur: Vec<char> = Vec::new();
    let mut i: usize = 0;
    assert(v@.subrange(0, v@.len() as int) =~= v@);
    assert(out@.map_values(|l: Vec<char>| l@) =~= Seq::<Seq<char>>::empty());
    while i < v.len()
        invariant
            0 <= i <= v@.len(),
            out@.map_values(|l: Vec<char>| l@) + lines_from(v@.subrange(i as int, v@.len() as int), cur@)
                == lines(v@),
        decreases v@.len() - i,
    {
        let ghost rest = v@.subrange(i as int, v@.len() as int);
        assert(rest.drop_first() =~= v@.subrange(i + 1, v@.len() as int));
        if v[i] == '\n' {
            let line = if cur.len() > 0 && cur[cur.len() - 1] == '\r' {
                sub_chars(&cur, 0, cur.len() - 1)
            } else {
                sub_chars(&cur, 0, cur.len())
            };
            assert(cur@.subrange(0, cur@.len() as int) =~= cur@);
            if cur.len() > 0 {
                assert(cur@.drop_last() =~= cur@.subrange(0, cur@.len() - 1));
            }
            let ghost before = out@.map_values(|l: Vec<char>| l@);
            out.push(line);
            assert(out@.map_values(|l: Vec<char>| l@) =~= before.push(strip_cr(cur@)));
            assert(before + (seq![strip_cr(cur@)] + lines_from(rest.drop_first(), seq![]))
                =~= before.push(strip_cr(cur@)) + lines_from(rest.drop_first(), seq![]));
            cur = Vec::new();
        } else {
            cur.push(v[i]);
        }
        i = i + 1;
    }
    assert(v@.subrange(i as int, v@.len() as int) =~= Seq::<char>::empty());
    if cur.len() > 0 {
        let ghost before = out@.map_values(|l: Vec<char>| l@);
        out.push(cur);
        assert(out@.map_values(|l: Vec<char>| l@) =~= before + seq![cur@]);
    } else {
        assert(out@.map_values(|l: Vec<char>| l@) =~= out@.map_values(|l: Vec<char>| l@) + Seq::<
            Seq<char>,
        >::empty());
    }
    out
}

/// `parts` joined with `sep` between consecutive parts (`[T]::join`).
pub open spec fn join(parts: Seq<Seq<char>>, sep: Seq<char>) -> Seq<char>
    decreases parts.len(),
{
    if parts.len() == 0 {
        seq![]
    } else if parts.len() == 1 {
        parts[0]
    } else {
        join(parts.drop_last(), sep) + sep + parts.last()
    }
}

/// The parts joined with `sep` between consecutive parts.
pub fn join_chars(parts: &Vec<Vec<char>>, sep: &[char]) -> (r: Vec<char>)
    ensures
        r@ == join(parts@.map_values(|l: Vec<char>| l@), sep@),
{
    let ghost ps = parts@.map_values(|l: Vec<char>| l@);
    let mut r: Vec<char> = Vec::new();
    let mut i: usize = 0;
    while i < parts.len()
        invariant
            0 <= i <= parts@.len(),
            ps == parts@.map_values(|l: Vec<char>| l@),
            r@ == join(ps.take(i as int), sep@),
        decreases parts@.len() - i,
    {
        assert(ps.take(i + 1).drop_last() =~= ps.take(i as int));
        if i > 0 {
            r.extend_from_slice(sep);
        }
        r.extend_from_slice(parts[i].as_slice());
        assert(ps.take(i + 1).last() == parts@[i as int]@);
        i = i + 1;
    }
    assert(ps.take(parts@.len() as int) =~= ps);
    r
}

/// The decimal representation of a signed integer, with a leading '-' when
/// it is negative.
pub open spec fn signed_decimal(n: int) -> Seq<char> {
    if n < 0 {
        seq!['-'] + decimal((-n) as nat)
    } else {
        decimal(n as nat)
    }
}

/// The decimal representation of a `u64`, as `format!("{n}")` writes it.
pub fn decimal_u64_chars(n: u64) -> (r: Vec<char>)
    ensures
        r@ == decimal(n as nat),
    decreases n,
{
    let c = digit_char((n % 10) as usize);
    if n < 10 {
        let mut r = Vec::new();
        r.push(c);
        r
    } else {
        let mut r = decimal_u64_chars(n / 10);
        r.push(c);
        r
    }
}

/// The decimal representation of `n`, as `format!("{n}")` writes it.
pub fn signed_decimal_chars(n: i64) -> (r: Vec<char>)
    ensures
        r@ == signed_decimal(n as int),
{
    if n < 0 {
        let magnitude: u64 = (0i128 - n as i128) as u64;
        let mut r = Vec::new();
        r.push('-');
        let mut d = decimal_u64_chars(magnitude);
        r.append(&mut d);
        r
    } else {
        decimal_u64_chars(n as u64)
    }
}

/// The pieces of `s` between runs of whitespace after the partial word
/// `cur`, as `str::split_whitespace` yields them.
pub open spec fn words_from(s: Seq<char>, cur: Seq<char>) -> Seq<Seq<char>>
    decreases s.len(),
{
    let done: Seq<Seq<char>> = if cur.len() > 0 {
        seq![cur]
    } else {
        seq![]
    };
    if s.len() == 0 {
        done
    } else if is_ws(s[0]) {
        done + words_from(s.drop_first(), seq![])
    } else {
        words_from(s.drop_first(), cur.push(s[0]))
    }
}

/// `str::split_whitespace`.
pub open spec fn words(s: Seq<char>) -> Seq<Seq<char>> {
    words_from(s, seq![])
}

/// The whitespace-separated words of `v`.
pub fn split_words(v: &[char]) -> (r: Vec<Vec<char>>)
    ensures
        r@.map_values(|l: Vec<char>| l@) == words(v@),
{
    let mut out: Vec<Vec<char>> = Vec::new();
    let mut cur: Vec<char> = Vec::new();
    let mut i: usize = 0;
    assert(v@.subrange(0, v@.len() as int) =~= v@);
    assert(out@.map_values(|l: Vec<char>| l@) =~= Seq::<Seq<char>>::empty());
    while i < v.len()
        invariant
            0 <= i <= v@.len(),
            out@.map_values(|l: Vec<char>| l@) + words_from(v@.subrange(i as int, v@.len() as int), cur@)
                == words(v@),
        decreases v@.len() - i,
    {
        let ghost rest = v@.subrange(i as int, v@.len() as int);
        assert(rest.drop_first() =~= v@.subrange(i + 1, v@.len() as int));
        if char_is_ws(v[i]) {
            let ghost before = out@.map_values(|l: Vec<char>| l@);
            if cur.len() > 0 {
                let word = cur;
                cur = Vec::new();
                out.push(word);
                assert(out@.map_values(|l: Vec<char>| l@) =~= before.push(word@));
                assert(before + (seq![word@] + words_from(rest.drop_first(), seq![]))
                    =~= before.push(word@) + words_from(rest.drop_first(), seq![]));
            } else {
                assert(cur@ =~= Seq::<char>::empty());
                assert(Seq::<Seq<char>>::empty() + words_from(rest.drop_first(), seq![])
                    =~= words_from(rest.drop_first(), seq![]));
            }
        } else {
            cur.push(v[i]);
        }
        i = i + 1;
    }
    assert(v@.subrange(i as int, v@.len() as int) =~= Seq::<char>::empty());
    let ghost before = out@.map_values(|l: Vec<char>| l@);
    if cur.len() > 0 {
        out.push(cur);
        assert(out@.map_values(|l: Vec<char>| l@) =~= before + seq![cur@]);
    } else {
        assert(before + Seq::<Seq<char>>::empty() =~= before);
    }
    out
}

/// The pieces of `s` between occurrences of `sep` after the partial piece
/// `cur`, as `str::split(sep)` yields them.
pub open spec fn pieces_from(s: Seq<char>, sep: char, cur: Seq<char>) -> Seq<Seq<char>>
    decreases s.len(),
{
    if s.len() == 0 {
        seq![cur]
    } else if s[0] == sep {
        seq![cur] + pieces_from(s.drop_first(), sep, seq![])
    } else {
        pieces_from(s.drop_first(), sep, cur.push(s[0]))
    }
}

/// `str::split(sep)` for a single character.
pub open spec fn pieces(s: Seq<char>, sep: char) -> Seq<Seq<char>> {
    pieces_from(s, sep, seq![])
}

/// The pieces of `v` between occurrences of `sep`.
pub fn split_char(v: &[char], sep: char) -> (r: Vec<Vec<char>>)
    ensures
        r@.map_values(|l: Vec<char>| l@) == pieces(v@, sep),
{
    let mut out: Vec<Vec<char>> = Vec::new();
    let mut cur: Vec<char> = Vec::new();
    let mut i: usize = 0;
    assert(v@.subrange(0, v@.len() as int) =~= v@);
    assert(out@.map_values(|l: Vec<char>| l@) =~= Seq::<Seq<char>>::empty());
    while i < v.len()
        invariant
            0 <= i <= v@.len(),
            out@.map_values(|l: Vec<char>| l@) + pieces_from(
                v@.subrange(i as int, v@.len() as int),
                sep,
                cur@,
            ) == pieces(v@, sep),
        decreases v@.len() - i,
    {
        let ghost rest = v@.subrange(i as int, v@.len() as int);
        assert(rest.drop_first() =~= v@.subrange(i + 1, v@.len() as int));
        if v[i] == sep {
            let ghost before = out@.map_values(|l: Vec<char>| l@);
            let piece = cur;
            cur = Vec::new();
            out.push(piece);
            assert(out@.map_values(|l: Vec<char>| l@) =~= before.push(piece@));
            assert(before + (seq![piece@] + pieces_from(rest.drop_first(), sep, seq![]))
                =~= before.push(piece@) + pieces_from(rest.drop_first(), sep, seq![]));
        } else {
            cur.push(v[i]);
        }
        i = i + 1;
    }
    assert(v@.subrange(i as int, v@.len() as int) =~= Seq::<char>::empty());
    let ghost before = out@.map_values(|l: Vec<char>| l@);
    out.push(cur);
    assert(out@.map_values(|l: Vec<char>| l@) =~= before + seq![cur@]);
    out
}

/// The characters that end a sentence.
pub open spec fn is_sentence_end(c: char) -> bool {
    c == '.' || c == '!' || c == '?'
}

/// The pieces of `s` between sentence-ending characters after the partial
/// piece `cur`, as `str::split(['.', '!', '?'])` yields them.
pub open spec fn sentences_from(s: Seq<char>, cur: Seq<char>) -> Seq<Seq<char>>
    decreases s.len(),
{
    if s.len() == 0 {
        seq![cur]
    } else if is_sentence_end(s[0]) {
        seq![cur] + sentences_from(s.drop_first(), seq![])
    } else {
        sentences_from(s.drop_first(), cur.push(s[0]))
    }
}

/// `str::split(['.', '!', '?'])`.
pub open spec fn sentences(s: Seq<char>) -> Seq<Seq<char>> {
    sentences_from(s, seq![])
}

/// The pieces of `v` between '.', '!' and '?'.
pub fn split_sentences(v: &[char]) -> (r: Vec<Vec<char>>)
    ensures
        r@.map_values(|l: Vec<char>| l@) == sentences(v@),
{
    let mut out: Vec<Vec<char>> = Vec::new();
    let mut cur: Vec<char> = Vec::new();
    let mut i: usize = 0;
    assert(v@.subrange(0, v@.len() as int) =~= v@);
    assert(out@.map_values(|l: Vec<char>| l@) =~= Seq::<Seq<char>>::empty());
    while i < v.len()
        invariant
            0 <= i <= v@.len(),
            out@.map_values(|l: Vec<char>| l@) + sentences_from(
                v@.subrange(i as int, v@.len() as int),
                cur@,
            ) == sentences(v@),
        decreases v@.len() - i,
    {
        let ghost rest = v@.subrange(i as int, v@.len() as int);
        assert(rest.drop_first() =~= v@.subrange(i + 1, v@.len() as int));
        let c = v[i];
        if c == '.' || c == '!' || c == '?' {
            let ghost before = out@.map_values(|l: Vec<char>| l@);
            let piece = cur;
            cur = Vec::new();
            out.push(piece);
            assert(out@.map_values(|l: Vec<char>| l@) =~= before.push(piece@));
            assert(before + (seq![piece@] + sentences_from(rest.drop_first(), seq![]))
                =~= before.push(piece@) + sentences_from(rest.drop_first(), seq![]));
        } else {
            cur.push(c);
        }
        i = i + 1;
    }
    assert(v@.subrange(i as int, v@.len() as int) =~= Seq::<char>::empty());
    let ghost before = out@.map_values(|l: Vec<char>| l@);
    out.push(cur);
    assert(out@.map_values(|l: Vec<char>| l@) =~= before + seq![cur@]);
    out
}

} // verus!
