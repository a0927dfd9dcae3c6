//! Prompt-injection screening: input normalization (NFKC, zero-width
//! characters, homoglyphs, common encodings), pattern matching on the
//! normalized text, redaction of known injection phrases, and output scanning.

use regex::Regex;
use unicode_normalization::UnicodeNormalization;
use vstd::prelude::*;
use vstd::utf8::*;

use crate::text::{from_chars, to_chars, utf8};

verus! {

broadcast use {vstd::string::group_string_axioms, vstd::utf8::encode_utf8_decode_utf8};

// ── Outside calls ───────────────────────────────────────────────

/// `Regex::new` accepts `pattern`.
pub uninterp spec fn regex_valid(pattern: Seq<char>) -> bool;

/// `Regex::is_match` of the compiled `pattern` on `text`.
pub uninterp spec fn regex_is_match(pattern: Seq<char>, text: Seq<char>) -> bool;

/// `Regex::replace_all` of the compiled `pattern` in `text` by the literal
/// replacement `rep`.
pub uninterp spec fn regex_replaced(pattern: Seq<char>, text: Seq<char>, rep: Seq<char>) -> Seq<char>;

/// `Regex::replace_all` of the compiled `pattern` in `text`, each match
/// replaced by `decode_entity` of its first capture group in base `radix`.
pub uninterp spec fn regex_entities_decoded(pattern: Seq<char>, text: Seq<char>, radix: u32) -> Seq<
    char,
>;

/// Unicode NFKC normalization, as `unicode_normalization` computes it.
pub uninterp spec fn nfkc(s: Seq<char>) -> Seq<char>;

/// `String::from_utf8_lossy`.
pub uninterp spec fn utf8_lossy(b: Seq<u8>) -> Seq<char>;

/// Compiles `pattern` with `Regex::new` and calls `is_match` on `text`;
/// `None` when the pattern does not compile.
#[verifier::external_body]
fn regex_match(pattern: &str, text: &str) -> (r: Option<bool>)
    ensures
        r is Some <==> regex_valid(pattern@),
        r matches Some(b) ==> b == regex_is_match(pattern@, text@),
{
    match Regex::new(pattern) {
        Ok(re) => Some(re.is_match(text)),
        Err(_) => None,
    }
}

/// Compiles `pattern` with `Regex::new` and calls `replace_all` on `text`
/// with the literal replacement `rep`; `None` when the pattern does not
/// compile.
#[verifier::external_body]
fn regex_replace_all(pattern: &str, text: &str, rep: &str) -> (r: Option<String>)
    ensures
        r is Some <==> regex_valid(pattern@),
        r matches Some(s) ==> s@ == regex_replaced(pattern@, text@, rep@),
        r matches Some(out) ==> (!regex_is_match(pattern@, text@) ==> out@ == text@),
{
    match Regex::new(pattern) {
        Ok(re) => Some(re.replace_all(text, regex::NoExpand(rep)).to_string()),
        Err(_) => None,
    }
}

/// Compiles `pattern` with `Regex::new` and calls `replace_all` on `text`,
/// replacing each match by `decode_entity` of its first capture group in
/// base `radix`; `None` when the pattern does not compile.
#[verifier::external_body]
fn regex_decode_entities(pattern: &str, text: &str, radix: u32) -> (r: Option<String>)
    requires
        radix == 10 || radix == 16,
    ensures
        r is Some <==> regex_valid(pattern@),
        r matches Some(s) ==> s@ == regex_entities_decoded(pattern@, text@, radix),
        r matches Some(out) ==> (!regex_is_match(pattern@, text@) ==> out@ == text@),
{
    match Regex::new(pattern) {
        Ok(re) => Some(
            re.replace_all(
                text,
                |caps: &regex::Captures<'_>| {
                    decode_entity(caps.get(1).map_or("", |m| m.as_str()), radix)
                },
            ).to_string(),
        ),
        Err(_) => None,
    }
}

/// Calls `UnicodeNormalization::nfkc` and collects the characters.
#[verifier::external_body]
fn nfkc_normalize(s: &str) -> (r: String)
    ensures
        r@ == nfkc(s@),
{
    s.nfkc().collect()
}

/// Calls `String::from_utf8_lossy`; valid UTF-8 decodes unchanged.
#[verifier::external_body]
fn from_utf8_lossy(b: &[u8]) -> (r: String)
    ensures
        r@ == utf8_lossy(b@),
        valid_utf8(b@) ==> r@ == decode_utf8(b@),
{
    String::from_utf8_lossy(b).to_string()
}

/// Calls `char::from_u32`: the character with that scalar value, if any.
#[verifier::external_body]
fn char_from_u32(n: u32) -> (r: Option<char>)
    ensures
        r is Some <==> is_scalar(n),
        r matches Some(c) ==> c as u32 == n,
{
    char::from_u32(n)
}

// ── Homoglyphs ──────────────────────────────────────────────────

/// The ASCII letter a Cyrillic lookalike folds to; other characters are kept.
pub open spec fn fold_char(c: char) -> char {
    if c == '\u{0435}' {
        'e'
    } else if c == '\u{043E}' {
        'o'
    } else if c == '\u{0430}' {
        'a'
    } else if c == '\u{0440}' {
        'p'
    } else if c == '\u{0456}' {
        'i'
    } else if c == '\u{0455}' {
        's'
    } else if c == '\u{0441}' {
        'c'
    } else if c == '\u{0443}' {
        'y'
    } else if c == '\u{0445}' {
        'x'
    } else if c == '\u{0475}' {
        'v'
    } else {
        c
    }
}

fn fold(c: char) -> (r: char)
    ensures
        r == fold_char(c),
{
    if c == '\u{0435}' {
        'e'
    } else if c == '\u{043E}' {
        'o'
    } else if c == '\u{0430}' {
        'a'
    } else if c == '\u{0440}' {
        'p'
    } else if c == '\u{0456}' {
        'i'
    } else if c == '\u{0455}' {
        's'
    } else if c == '\u{0441}' {
        'c'
    } else if c == '\u{0443}' {
        'y'
    } else if c == '\u{0445}' {
        'x'
    } else if c == '\u{0475}' {
        'v'
    } else {
        c
    }
}

/// Folds homoglyph characters (e.g. Cyrillic lookalikes) to ASCII equivalents for pattern matching.
pub fn homoglyph_fold(s: &str) -> (r: String)
    ensures
        r@ == s@.map_values(|c: char| fold_char(c)),
{
    let chars = to_chars(s);
    let mut out: Vec<char> = Vec::new();
    let mut i: usize = 0;
    while i < chars.len()
        invariant
            0 <= i <= chars@.len(),
            chars@ == s@,
            out@ == s@.take(i as int).map_values(|c: char| fold_char(c)),
        decreases chars@.len() - i,
    {
        out.push(fold(chars[i]));
        assert(out@ =~= s@.take(i + 1).map_values(|c: char| fold_char(c)));
        i = i + 1;
    }
    assert(s@.take(s@.len() as int) =~= s@);
    from_chars(out.as_slice())
}

// ── Encodings ───────────────────────────────────────────────────

pub open spec fn is_zero_width(c: char) -> bool {
    c == '\u{200B}' || c == '\u{200C}' || c == '\u{200D}' || c == '\u{FEFF}' || c == '\u{2060}'
}

fn zero_width(c: char) -> (r: bool)
    ensures
        r == is_zero_width(c),
{
    c == '\u{200B}' || c == '\u{200C}' || c == '\u{200D}' || c == '\u{FEFF}' || c == '\u{2060}'
}

/// The value of a hex digit, if `c` is one (`char::to_digit(16)`).
pub open spec fn hex_val(c: char) -> Option<u8> {
    if '0' <= c <= '9' {
        Some((c as u32 - '0' as u32) as u8)
    } else if 'a' <= c <= 'f' {
        Some((c as u32 - 'a' as u32 + 10) as u8)
    } else if 'A' <= c <= 'F' {
        Some((c as u32 - 'A' as u32 + 10) as u8)
    } else {
        None
    }
}

fn hex_value(c: char) -> (r: Option<u8>)
    ensures
        r == hex_val(c),
{
    if '0' <= c && c <= '9' {
        Some((c as u32 - '0' as u32) as u8)
    } else if 'a' <= c && c <= 'f' {
        Some((c as u32 - 'a' as u32 + 10) as u8)
    } else if 'A' <= c && c <= 'F' {
        Some((c as u32 - 'A' as u32 + 10) as u8)
    } else {
        None
    }
}

/// The lowercase hex digit byte for a value below 16 (`char::from_digit(_, 16)`).
pub open spec fn hex_digit_byte(v: u8) -> u8 {
    if v < 10 {
        (48 + v) as u8
    } else {
        (87 + v) as u8
    }
}

/// The bytes that percent-decoding produces: "%XX" with two hex digits
/// becomes that byte; "%" followed by one hex digit stays as '%' and that
/// digit (in lowercase); any other '%' and every other character stays as
/// its UTF-8 encoding.
pub open spec fn percent_decoded(s: Seq<char>) -> Seq<u8>
    decreases s.len(),
{
    if s.len() == 0 {
        seq![]
    } else if s[0] == '%' {
        if s.len() >= 2 && hex_val(s[1]) is Some {
            if s.len() >= 3 && hex_val(s[2]) is Some {
                seq![(hex_val(s[1])->0 * 16 + hex_val(s[2])->0) as u8] + percent_decoded(s.skip(3))
            } else {
                seq![37u8, hex_digit_byte(hex_val(s[1])->0)] + percent_decoded(s.skip(2))
            }
        } else {
            seq![37u8] + percent_decoded(s.skip(1))
        }
    } else {
        utf8(seq![s[0]]) + percent_decoded(s.skip(1))
    }
}

fn percent_decode(s: &[char]) -> (r: Vec<u8>)
    ensures
        r@ == percent_decoded(s@),
{
    let mut bytes: Vec<u8> = Vec::new();
    let mut i: usize = 0;
    assert(s@.skip(0) =~= s@);
    assert(bytes@ + percent_decoded(s@) =~= percent_decoded(s@));
    while i < s.len()
        invariant
            0 <= i <= s@.len(),
            bytes@ + percent_decoded(s@.skip(i as int)) == percent_decoded(s@),
        decreases s@.len() - i,
    {
        let ghost rest = s@.skip(i as int);
        let c = s[i];
        if c == '%' {
            if i + 1 < s.len() {
                if let Some(hi) = hex_value(s[i + 1]) {
                    if i + 2 < s.len() {
                        if let Some(lo) = hex_value(s[i + 2]) {
                            bytes.push(hi * 16 + lo);
                            assert(rest.skip(3) =~= s@.skip(i + 3));
                            assert(bytes@ + percent_decoded(s@.skip(i + 3)) =~= percent_decoded(s@));
                            i = i + 3;
                            continue;
                        }
                    }
                    bytes.push(37u8);
                    bytes.push(if hi < 10 {
                        48 + hi
                    } else {
                        87 + hi
                    });
                    assert(rest.skip(2) =~= s@.skip(i + 2));
                    assert(bytes@ + percent_decoded(s@.skip(i + 2)) =~= percent_decoded(s@));
                    i = i + 2;
                    continue;
                }
            }
            bytes.push(37u8);
            assert(rest.skip(1) =~= s@.skip(i + 1));
            assert(bytes@ + percent_decoded(s@.skip(i + 1)) =~= percent_decoded(s@));
            i = i + 1;
            continue;
        }
        let mut one = String::new();
        one.push(c);
        let enc = one.as_str().as_bytes();
        assert(one@ =~= seq![c]);
        bytes.extend_from_slice(enc);
        assert(rest.skip(1) =~= s@.skip(i + 1));
        assert(bytes@ + percent_decoded(s@.skip(i + 1)) =~= percent_decoded(s@));
        i = i + 1;
    }
    assert(s@.skip(s@.len() as int) =~= Seq::<char>::empty());
    assert(bytes@ + Seq::<u8>::empty() =~= bytes@);
    bytes
}

/// Value of a run of digits in base `radix` (10 or 16), or 0 when a
/// character is not such a digit, the run is empty, or the value does not
/// fit in a `u32` (`u32::from_str_radix(..).unwrap_or(0)` on a run without
/// sign).
pub open spec fn digits_value(s: Seq<char>, radix: u32) -> u32 {
    if s.len() == 0 || !all_digits(s, radix) || digits_num(s, radix) > u32::MAX {
        0
    } else {
        digits_num(s, radix) as u32
    }
}

pub open spec fn digit_val(c: char, radix: u32) -> Option<u8> {
    if radix == 10 {
        if '0' <= c <= '9' {
            Some((c as u32 - '0' as u32) as u8)
        } else {
            None
        }
    } else {
        hex_val(c)
    }
}

pub open spec fn all_digits(s: Seq<char>, radix: u32) -> bool {
    forall|i: int| 0 <= i < s.len() ==> #[trigger] digit_val(s[i], radix) is Some
}

pub open spec fn digits_num(s: Seq<char>, radix: u32) -> nat
    decreases s.len(),
{
    if s.len() == 0 {
        0
    } else {
        digits_num(s.drop_last(), radix) * (radix as nat) + (digit_val(s.last(), radix)->0 as nat)
    }
}

/// The character a numeric entity body denotes: its value as a scalar, or
/// U+FFFD when that value is not a scalar.
pub open spec fn entity_char(digits: Seq<char>, radix: u32) -> char {
    let n = digits_value(digits, radix);
    if is_scalar(n) {
        n as char
    } else {
        '\u{FFFD}'
    }
}

/// Decodes the digits of a numeric character reference.
pub fn decode_entity(digits: &str, radix: u32) -> (r: String)
    requires
        radix == 10 || radix == 16,
    ensures
        r@ == seq![entity_char(digits@, radix)],
{
    let d = to_chars(digits);
    let mut ok = d.len() > 0;
    let mut acc: u64 = 0;
    let mut i: usize = 0;
    while i < d.len() && ok
        invariant
            radix == 10 || radix == 16,
            d@ == digits@,
            0 <= i <= d@.len(),
            ok ==> all_digits(d@.take(i as int), radix) && acc as nat == digits_num(
                d@.take(i as int),
                radix,
            ) && acc <= u32::MAX,
            ok ==> d@.len() > 0,
            !ok ==> digits_value(d@, radix) == 0,
        decreases d@.len() - i,
    {
        let v = if radix == 10 {
            if '0' <= d[i] && d[i] <= '9' {
                Some((d[i] as u32 - '0' as u32) as u8)
            } else {
                None
            }
        } else {
            hex_value(d[i])
        };
        assert(d@.take(i + 1).drop_last() =~= d@.take(i as int));
        match v {
            Some(x) => {
                assert(x < 16);
                assert(acc * (radix as u64) <= 0xFFFF_FFFFu64 * 16) by (nonlinear_arith)
                    requires
                        acc <= 0xFFFF_FFFFu64,
                        radix <= 16,
                ;
                let next = acc * (radix as u64) + (x as u64);
                assert(d@.take(i + 1).last() == d@[i as int]);
                if next > 0xFFFF_FFFF {
                    ok = false;
                    proof {
                        lemma_digits_grow(d@, radix, i + 1);
                    }
                } else {
                    acc = next;
                }
            },
            None => {
                ok = false;
                assert(digit_val(d@[i as int], radix) is None);
            },
        }
        i = i + 1;
    }
    let n: u32 = if ok {
        assert(d@.take(d@.len() as int) =~= d@);
        acc as u32
    } else {
        0
    };
    let c = match char_from_u32(n) {
        Some(c) => c,
        None => '\u{FFFD}',
    };
    proof {
        if is_scalar(n) {
            char_u32_cast(c, n);
        }
    }
    let mut r = String::new();
    r.push(c);
    r
}

/// Once a digit prefix overflows `u32`, the whole run does (when every
/// character is a digit).
proof fn lemma_digits_grow(s: Seq<char>, radix: u32, k: int)
    requires
        radix == 10 || radix == 16,
        0 < k <= s.len(),
        digits_num(s.take(k), radix) > u32::MAX,
    ensures
        digits_value(s, radix) == 0,
    decreases s.len() - k,
{
    if k == s.len() {
        assert(s.take(k) =~= s);
    } else if all_digits(s, radix) {
        assert(s.take(k + 1).drop_last() =~= s.take(k));
        assert(digit_val(s[k], radix) is Some);
        assert(s.take(k + 1).last() == s[k]);
        assert(digits_num(s.take(k + 1), radix) >= digits_num(s.take(k), radix)) by (nonlinear_arith)
            requires
                digits_num(s.take(k + 1), radix) == digits_num(s.take(k), radix) * (radix as nat) + (
                digit_val(s[k], radix)->0 as nat),
                radix >= 10,
        ;
        lemma_digits_grow(s, radix, k + 1);
    }
}

/// `s` with every non-overlapping occurrence of `from`, scanning left to
/// right, replaced by `to` (`str::replace`).
pub open spec fn replace_lit(s: Seq<char>, from: Seq<char>, to: Seq<char>) -> Seq<char>
    decreases s.len(),
{
    if from.len() == 0 || s.len() < from.len() {
        s
    } else if s.subrange(0, from.len() as int) == from {
        to + replace_lit(s.skip(from.len() as int), from, to)
    } else {
        seq![s[0]] + replace_lit(s.skip(1), from, to)
    }
}

/// Replaces every non-overlapping occurrence of `from` by `to`.
pub fn replace_chars(s: &[char], from: &str, to: &str) -> (r: Vec<char>)
    requires
        from@.len() > 0,
    ensures
        r@ == replace_lit(s@, from@, to@),
{
    let f = to_chars(from);
    let t = to_chars(to);
    let mut out: Vec<char> = Vec::new();
    let mut i: usize = 0;
    assert(s@.skip(0) =~= s@);
    assert(out@ + replace_lit(s@, f@, t@) =~= replace_lit(s@, f@, t@));
    while i < s.len()
        invariant
            f@ == from@,
            t@ == to@,
            f@.len() > 0,
            0 <= i <= s@.len(),
            out@ + replace_lit(s@.skip(i as int), f@, t@) == replace_lit(s@, f@, t@),
        decreases s@.len() - i,
    {
        let ghost rest = s@.skip(i as int);
        if crate::text::matches_at(s, f.as_slice(), i) {
            assert(rest.subrange(0, f@.len() as int) =~= s@.subrange(i as int, i + f@.len()));
            assert(rest.skip(f@.len() as int) =~= s@.skip(i + f@.len()));
            let mut tc = crate::text::copy_chars(t.as_slice());
            out.append(&mut tc);
            assert(out@ + replace_lit(s@.skip(i + f@.len()), f@, t@) =~= replace_lit(s@, f@, t@));
            i = i + f.len();
        } else {
            proof {
                if rest.len() >= f@.len() {
                    assert(rest.subrange(0, f@.len() as int) =~= s@.subrange(i as int, i + f@.len()));
                }
            }
            assert(rest.skip(1) =~= s@.skip(i + 1));
            out.push(s[i]);
            assert(out@ + replace_lit(s@.skip(i + 1), f@, t@) =~= replace_lit(s@, f@, t@));
            i = i + 1;
        }
    }
    assert(s@.skip(s@.len() as int) =~= Seq::<char>::empty());
    assert(out@ + Seq::<char>::empty() =~= out@);
    out
}

pub open spec fn hex_entity_pattern() -> Seq<char> {
    r"&#x([0-9a-fA-F]+);"@
}

pub open spec fn dec_entity_pattern() -> Seq<char> {
    r"&#(\d+);"@
}

/// Numeric entities decoded (when their patterns compile), then the named
/// entities `&amp;`, `&lt;`, `&gt;`, `&quot;` and `&apos;`, in that order.
pub open spec fn entities_decoded(s: Seq<char>) -> Seq<char> {
    let a = if regex_valid(hex_entity_pattern()) {
        regex_entities_decoded(hex_entity_pattern(), s, 16)
    } else {
        s
    };
    let b = if regex_valid(dec_entity_pattern()) {
        regex_entities_decoded(dec_entity_pattern(), a, 10)
    } else {
        a
    };
    replace_lit(
        replace_lit(
            replace_lit(replace_lit(replace_lit(b, "&amp;"@, "&"@), "&lt;"@, "<"@), "&gt;"@, ">"@),
            "&quot;"@,
            "\""@,
        ),
        "&apos;"@,
        "'"@,
    )
}

/// Entities decoded, percent-encoding decoded (as UTF-8, lossily), and
/// zero-width characters removed.
pub open spec fn decoded(s: Seq<char>) -> Seq<char> {
    utf8_lossy(percent_decoded(entities_decoded(s))).filter(|c: char| !is_zero_width(c))
}

/// A text with nothing to decode: no '&', no '%', no zero-width character,
/// and no match of the numeric-entity patterns.
pub open spec fn nothing_to_decode(s: Seq<char>) -> bool {
    &&& forall|i: int|
        0 <= i < s.len() ==> #[trigger] s[i] != '&' && s[i] != '%' && !is_zero_width(s[i])
    &&& !regex_is_match(hex_entity_pattern(), s)
    &&& !regex_is_match(dec_entity_pattern(), s)
}

proof fn lemma_replace_lit_absent(s: Seq<char>, from: Seq<char>, to: Seq<char>)
    requires
        from.len() > 0,
        from[0] == '&',
        forall|i: int| 0 <= i < s.len() ==> #[trigger] s[i] != '&',
    ensures
        replace_lit(s, from, to) == s,
    decreases s.len(),
{
    if s.len() >= from.len() {
        assert(s.subrange(0, from.len() as int)[0] == s[0]);
        assert(s.subrange(0, from.len() as int) != from);
        assert forall|i: int| 0 <= i < s.skip(1).len() implies #[trigger] s.skip(1)[i] != '&' by {
            assert(s.skip(1)[i] == s[i + 1]);
        }
        lemma_replace_lit_absent(s.skip(1), from, to);
        assert(seq![s[0]] + s.skip(1) =~= s);
    }
}

proof fn lemma_percent_absent(s: Seq<char>)
    requires
        forall|i: int| 0 <= i < s.len() ==> #[trigger] s[i] != '%',
    ensures
        percent_decoded(s) == utf8(s),
    decreases s.len(),
{
    if s.len() > 0 {
        assert forall|i: int| 0 <= i < s.skip(1).len() implies #[trigger] s.skip(1)[i] != '%' by {
            assert(s.skip(1)[i] == s[i + 1]);
        }
        lemma_percent_absent(s.skip(1));
        assert(s.skip(1) =~= s.drop_first());
        assert(seq![s[0]].drop_first() =~= Seq::<char>::empty());
        assert(utf8(seq![s[0]]) == encode_scalar(s[0] as u32) + encode_utf8(Seq::<char>::empty()));
        assert(encode_scalar(s[0] as u32) + Seq::<u8>::empty() =~= encode_scalar(s[0] as u32));
    }
}

proof fn lemma_no_zero_width_kept(s: Seq<char>)
    requires
        forall|i: int| 0 <= i < s.len() ==> !is_zero_width(#[trigger] s[i]),
    ensures
        s.filter(|c: char| !is_zero_width(c)) == s,
    decreases s.len(),
{
    reveal_with_fuel(Seq::<_>::filter, 1);
    if s.len() > 0 {
        lemma_no_zero_width_kept(s.drop_last());
        assert(!is_zero_width(s[s.len() - 1]));
        assert(s.drop_last().push(s.last()) =~= s);
    }
}

proof fn lemma_named_entities_absent(s: Seq<char>)
    requires
        nothing_to_decode(s),
    ensures
        replace_lit(
            replace_lit(
                replace_lit(replace_lit(replace_lit(s, "&amp;"@, "&"@), "&lt;"@, "<"@), "&gt;"@, ">"@),
                "&quot;"@,
                "\""@,
            ),
            "&apos;"@,
            "'"@,
        ) == s,
{
    reveal_strlit("&amp;");
    reveal_strlit("&lt;");
    reveal_strlit("&gt;");
    reveal_strlit("&quot;");
    reveal_strlit("&apos;");
    lemma_replace_lit_absent(s, "&amp;"@, "&"@);
    lemma_replace_lit_absent(s, "&lt;"@, "<"@);
    lemma_replace_lit_absent(s, "&gt;"@, ">"@);
    lemma_replace_lit_absent(s, "&quot;"@, "\""@);
    lemma_replace_lit_absent(s, "&apos;"@, "'"@);
}

proof fn lemma_plain_round_trip(s: Seq<char>)
    requires
        nothing_to_decode(s),
    ensures
        percent_decoded(s) == utf8(s),
        valid_utf8(utf8(s)),
        decode_utf8(utf8(s)) == s,
        s.filter(|c: char| !is_zero_width(c)) == s,
{
    lemma_percent_absent(s);
    vstd::utf8::encode_utf8_valid_utf8(s);
    vstd::utf8::encode_utf8_decode_utf8(s);
    lemma_no_zero_width_kept(s);
}

/// Decodes common encoding bypasses: HTML entities, percent-encoding, and
/// strips zero-width chars. A text with nothing to decode comes back
/// unchanged.
pub fn decode_common_encodings(s: &str) -> (r: String)
    ensures
        r@ == decoded(s@),
        nothing_to_decode(s@) ==> r@ == s@,
{
    let a = match regex_decode_entities(r"&#x([0-9a-fA-F]+);", s, 16) {
        Some(x) => x,
        None => s.to_owned(),
    };
    let b = match regex_decode_entities(r"&#(\d+);", a.as_str(), 10) {
        Some(x) => x,
        None => a,
    };
    proof {
        reveal_strlit("&amp;");
        reveal_strlit("&lt;");
        reveal_strlit("&gt;");
        reveal_strlit("&quot;");
        reveal_strlit("&apos;");
    }
    let bc = to_chars(b.as_str());
    let c1 = replace_chars(bc.as_slice(), "&amp;", "&");
    let c2 = replace_chars(c1.as_slice(), "&lt;", "<");
    let c3 = replace_chars(c2.as_slice(), "&gt;", ">");
    let c4 = replace_chars(c3.as_slice(), "&quot;", "\"");
    let c5 = replace_chars(c4.as_slice(), "&apos;", "'");
    proof {
        reveal_strlit("&amp;");
        reveal_strlit("&lt;");
        reveal_strlit("&gt;");
        reveal_strlit("&quot;");
        reveal_strlit("&apos;");
    }
    assert(c5@ == entities_decoded(s@));
    proof {
        if nothing_to_decode(s@) {
            assert(b@ == s@);
            lemma_named_entities_absent(s@);
            lemma_plain_round_trip(s@);
        }
    }
    let bytes = percent_decode(c5.as_slice());
    let lossy = from_utf8_lossy(bytes.as_slice());
    let lc = to_chars(lossy.as_str());
    let mut out: Vec<char> = Vec::new();
    let mut i: usize = 0;
    while i < lc.len()
        invariant
            0 <= i <= lc@.len(),
            out@ == lc@.take(i as int).filter(|c: char| !is_zero_width(c)),
        decreases lc@.len() - i,
    {
        reveal_with_fuel(Seq::<_>::filter, 1);
        assert(lc@.take(i + 1).drop_last() =~= lc@.take(i as int));
        if !zero_width(lc[i]) {
            out.push(lc[i]);
        }
        i = i + 1;
    }
    assert(lc@.take(lc@.len() as int) =~= lc@);
    proof {
        if nothing_to_decode(s@) {
            lemma_plain_round_trip(s@);
        }
    }
    from_chars(out.as_slice())
}

// ── Pattern sets ────────────────────────────────────────────────

/// The number of patterns that compile and match `text`.
pub open spec fn count_matches(patterns: Seq<Seq<char>>, text: Seq<char>) -> nat
    decreases patterns.len(),
{
    if patterns.len() == 0 {
        0
    } else {
        count_matches(patterns.drop_last(), text) + if regex_valid(patterns.last())
            && regex_is_match(patterns.last(), text) {
            1nat
        } else {
            0nat
        }
    }
}

/// Some pattern compiles and matches `text`.
pub open spec fn any_match(patterns: Seq<Seq<char>>, text: Seq<char>) -> bool {
    exists|i: int|
        0 <= i < patterns.len() && regex_valid(#[trigger] patterns[i]) && regex_is_match(
            patterns[i],
            text,
        )
}

fn count_pattern_matches(patterns: &Vec<&'static str>, text: &str) -> (r: u32)
    requires
        patterns@.len() < u32::MAX,
    ensures
        r == count_matches(patterns@.map_values(|p: &str| p@), text@),
{
    let ghost ps = patterns@.map_values(|p: &str| p@);
    let mut hits: u32 = 0;
    let mut i: usize = 0;
    while i < patterns.len()
        invariant
            0 <= i <= patterns@.len() < u32::MAX,
            ps == patterns@.map_values(|p: &str| p@),
            hits == count_matches(ps.take(i as int), text@),
            hits <= i,
        decreases patterns@.len() - i,
    {
        assert(ps.take(i + 1).drop_last() =~= ps.take(i as int));
        assert(ps.take(i + 1).last() == patterns@[i as int]@);
        if let Some(true) = regex_match(patterns[i], text) {
            hits = hits + 1;
        }
        i = i + 1;
    }
    assert(ps.take(patterns@.len() as int) =~= ps);
    hits
}

pub open spec fn instruction_patterns() -> Seq<Seq<char>> {
    seq![
        r"(?i)ignore\s+(all\s+)?(previous|prior|above)\s+(instructions?|prompts?|rules?)"@,
        r"(?i)you\s+are\s+now\s+(a|an|in)\b"@,
        r"(?i)disregard\s+(your|all|the)\s+(instructions?|rules?|guidelines?)"@,
        r"(?i)system\s*:\s*"@,
        r"(?i)new\s+instructions?\s*:"@,
        r"(?i)override\s+(all\s+)?(safety|security|rules?)"@,
    ]
}

pub open spec fn encoding_patterns() -> Seq<Seq<char>> {
    seq![
        r"(?i)base64\s*decode"@,
        r"\\x[0-9a-fA-F]{2}"@,
        r"&#x?[0-9a-fA-F]+;"@,
        r"%[0-9a-fA-F]{2}%[0-9a-fA-F]{2}"@,
    ]
}

pub open spec fn authority_patterns() -> Seq<Seq<char>> {
    seq![
        r"(?i)i\s+am\s+(the\s+)?(admin|administrator|root|owner|creator)"@,
        r"(?i)as\s+(an?\s+)?(admin|administrator|system)\b"@,
        r"(?i)with\s+(admin|root|system)\s+(privileges?|access|authority)"@,
    ]
}

pub open spec fn financial_patterns() -> Seq<Seq<char>> {
    seq![
        r"(?i)transfer\s+(all|my|the)\s+(funds?|money|balance|crypto)"@,
        r"(?i)send\s+(all\s+)?(funds?|tokens?|eth|btc|sol)\s+to\b"@,
        r"(?i)drain\s+(the\s+)?(wallet|account|treasury)"@,
    ]
}

pub open spec fn strip_patterns() -> Seq<Seq<char>> {
    seq![
        r"(?i)ignore\s+(all\s+)?(previous|prior|above)\s+(instructions?|prompts?|rules?)"@,
        r"(?i)disregard\s+(your|all|the)\s+(instructions?|rules?|guidelines?)"@,
        r"(?i)new\s+instructions?\s*:"@,
        r"(?i)system\s*:\s*"@,
        r"(?i)override\s+(all\s+)?(safety|security|rules?)"@,
    ]
}

pub open spec fn output_patterns() -> Seq<Seq<char>> {
    seq![
        r"(?i)ignore\s+(all\s+)?(previous|prior|above)\s+(instructions?|prompts?|rules?)"@,
        r"(?i)you\s+are\s+now\s+(a|an|in)\b"@,
        r"(?i)system\s*:\s*"@,
        r"(?i)new\s+instructions?\s*:"@,
        r"(?i)override\s+(all\s+)?(safety|security|rules?)"@,
        r"(?i)disregard\s+(your|all|the)\s+(instructions?|rules?|guidelines?)"@,
    ]
}

/// How many patterns of each weighted set matched the normalized input.
#[derive(Debug, Clone, Copy, PartialEq, Eq)]
pub struct PatternHits {
    pub instruction: u32,
    pub encoding: u32,
    pub authority: u32,
    pub financial: u32,
}

/// The input as the L1 gate matches it: NFKC-normalized, zero-width
/// characters turned into spaces, homoglyphs folded.
pub open spec fn gate_normalized(input: Seq<char>) -> Seq<char> {
    nfkc(input).map_values(|c: char| if is_zero_width(c) { ' ' } else { c }).map_values(
        |c: char| fold_char(c),
    )
}

fn gate_normalize(input: &str) -> (r: String)
    ensures
        r@ == gate_normalized(input@),
{
    let normalized = nfkc_normalize(input);
    let chars = to_chars(normalized.as_str());
    let mut out: Vec<char> = Vec::new();
    let mut i: usize = 0;
    while i < chars.len()
        invariant
            0 <= i <= chars@.len(),
            out@ == chars@.take(i as int).map_values(
                |c: char| if is_zero_width(c) { ' ' } else { c },
            ),
        decreases chars@.len() - i,
    {
        out.push(if zero_width(chars[i]) { ' ' } else { chars[i] });
        assert(out@ =~= chars@.take(i + 1).map_values(
            |c: char| if is_zero_width(c) { ' ' } else { c },
        ));
        i = i + 1;
    }
    assert(chars@.take(chars@.len() as int) =~= chars@);
    let spaced = from_chars(out.as_slice());
    homoglyph_fold(spaced.as_str())
}

/// L1 gatekeeping: counts the injection patterns of each weighted set that
/// match the normalized input. The threat score weighs these counts.
pub fn injection_pattern_hits(input: &str) -> (r: PatternHits)
    ensures
        r.instruction == count_matches(instruction_patterns(), gate_normalized(input@)),
        r.encoding == count_matches(encoding_patterns(), gate_normalized(input@)),
        r.authority == count_matches(authority_patterns(), gate_normalized(input@)),
        r.financial == count_matches(financial_patterns(), gate_normalized(input@)),
{
    let normalized = gate_normalize(input);
    let instruction = vec![
        r"(?i)ignore\s+(all\s+)?(previous|prior|above)\s+(instructions?|prompts?|rules?)",
        r"(?i)you\s+are\s+now\s+(a|an|in)\b",
        r"(?i)disregard\s+(your|all|the)\s+(instructions?|rules?|guidelines?)",
        r"(?i)system\s*:\s*",
        r"(?i)new\s+instructions?\s*:",
        r"(?i)override\s+(all\s+)?(safety|security|rules?)",
    ];
    let encoding = vec![
        r"(?i)base64\s*decode",
        r"\\x[0-9a-fA-F]{2}",
        r"&#x?[0-9a-fA-F]+;",
        r"%[0-9a-fA-F]{2}%[0-9a-fA-F]{2}",
    ];
    let authority = vec![
        r"(?i)i\s+am\s+(the\s+)?(admin|administrator|root|owner|creator)",
        r"(?i)as\s+(an?\s+)?(admin|administrator|system)\b",
        r"(?i)with\s+(admin|root|system)\s+(privileges?|access|authority)",
    ];
    let financial = vec![
        r"(?i)transfer\s+(all|my|the)\s+(funds?|money|balance|crypto)",
        r"(?i)send\s+(all\s+)?(funds?|tokens?|eth|btc|sol)\s+to\b",
        r"(?i)drain\s+(the\s+)?(wallet|account|treasury)",
    ];
    assert(instruction@.map_values(|p: &str| p@) =~= instruction_patterns());
    assert(encoding@.map_values(|p: &str| p@) =~= encoding_patterns());
    assert(authority@.map_values(|p: &str| p@) =~= authority_patterns());
    assert(financial@.map_values(|p: &str| p@) =~= financial_patterns());
    PatternHits {
        instruction: count_pattern_matches(&instruction, normalized.as_str()),
        encoding: count_pattern_matches(&encoding, normalized.as_str()),
        authority: count_pattern_matches(&authority, normalized.as_str()),
        financial: count_pattern_matches(&financial, normalized.as_str()),
    }
}

/// The text after redacting, in order, the matches of each strip pattern
/// that compiles.
pub open spec fn redacted(patterns: Seq<Seq<char>>, text: Seq<char>) -> Seq<char>
    decreases patterns.len(),
{
    if patterns.len() == 0 {
        text
    } else {
        let before = redacted(patterns.drop_last(), text);
        if regex_valid(patterns.last()) {
            regex_replaced(patterns.last(), before, "[REDACTED]"@)
        } else {
            before
        }
    }
}

/// No pattern that compiles matches `text`.
pub open spec fn no_match(patterns: Seq<Seq<char>>, text: Seq<char>) -> bool {
    forall|i: int|
        0 <= i < patterns.len() ==> !(regex_valid(#[trigger] patterns[i]) && regex_is_match(
            patterns[i],
            text,
        ))
}

/// Strips known injection patterns from input. Text that no pattern matches
/// comes back unchanged.
pub fn sanitize(input: &str) -> (r: String)
    ensures
        r@ == redacted(strip_patterns(), input@),
        no_match(strip_patterns(), input@) ==> r@ == input@,
{
    let patterns = vec![
        r"(?i)ignore\s+(all\s+)?(previous|prior|above)\s+(instructions?|prompts?|rules?)",
        r"(?i)disregard\s+(your|all|the)\s+(instructions?|rules?|guidelines?)",
        r"(?i)new\s+instructions?\s*:",
        r"(?i)system\s*:\s*",
        r"(?i)override\s+(all\s+)?(safety|security|rules?)",
    ];
    let ghost ps = patterns@.map_values(|p: &str| p@);
    assert(ps =~= strip_patterns());
    let mut result = input.to_owned();
    let mut i: usize = 0;
    while i < patterns.len()
        invariant
            0 <= i <= patterns@.len(),
            ps == patterns@.map_values(|p: &str| p@),
            result@ == redacted(ps.take(i as int), input@),
            ps == strip_patterns(),
            no_match(ps, input@) ==> result@ == input@,
        decreases patterns@.len() - i,
    {
        assert(ps.take(i + 1).drop_last() =~= ps.take(i as int));
        assert(ps.take(i + 1).last() == patterns@[i as int]@);
        assert(ps[i as int] == patterns@[i as int]@);
        match regex_replace_all(patterns[i], result.as_str(), "[REDACTED]") {
            Some(s) => {
                result = s;
            },
            None => {},
        }
        i = i + 1;
    }
    assert(ps.take(patterns@.len() as int) =~= ps);
    result
}

/// The output as the L4 scan matches it: NFKC-normalized, decoded, and
/// homoglyph-folded.
pub open spec fn scan_normalized(output: Seq<char>) -> Seq<char> {
    decoded(nfkc(output)).map_values(|c: char| fold_char(c))
}

/// L4: scans output for injection patterns that might be relayed.
pub fn scan_output(output: &str) -> (r: bool)
    ensures
        r == any_match(output_patterns(), scan_normalized(output@)),
{
    let normalized = nfkc_normalize(output);
    let decoded_text = decode_common_encodings(normalized.as_str());
    let folded = homoglyph_fold(decoded_text.as_str());
    let patterns = vec![
        r"(?i)ignore\s+(all\s+)?(previous|prior|above)\s+(instructions?|prompts?|rules?)",
        r"(?i)you\s+are\s+now\s+(a|an|in)\b",
        r"(?i)system\s*:\s*",
        r"(?i)new\s+instructions?\s*:",
        r"(?i)override\s+(all\s+)?(safety|security|rules?)",
        r"(?i)disregard\s+(your|all|the)\s+(instructions?|rules?|guidelines?)",
    ];
    let ghost ps = patterns@.map_values(|p: &str| p@);
    assert(ps =~= output_patterns());
    let mut i: usize = 0;
    while i < patterns.len()
        invariant
            0 <= i <= patterns@.len(),
            ps == patterns@.map_values(|p: &str| p@),
            ps == output_patterns(),
            folded@ == scan_normalized(output@),
            forall|j: int|
                0 <= j < i ==> !(regex_valid(#[trigger] ps[j]) && regex_is_match(ps[j], folded@)),
        decreases patterns@.len() - i,
    {
        assert(ps[i as int] == patterns@[i as int]@);
        if let Some(true) = regex_match(patterns[i], folded.as_str()) {
            assert(regex_valid(ps[i as int]) && regex_is_match(ps[i as int], folded@));
            return true;
        }
        i = i + 1;
    }
    false
}


/// The decoded text holds no zero-width character.
pub proof fn lemma_decoded_has_no_zero_width(s: Seq<char>)
    ensures
        forall|i: int| 0 <= i < decoded(s).len() ==> !is_zero_width(#[trigger] decoded(s)[i]),
{
    let l = utf8_lossy(percent_decoded(entities_decoded(s)));
    assert forall|i: int| 0 <= i < decoded(s).len() implies !is_zero_width(#[trigger] decoded(s)[i]) by {
        l.filter_lemma(|c: char| !is_zero_width(c));
    }
}

/// Folding homoglyphs twice changes nothing more than folding once.
pub proof fn lemma_fold_idempotent(s: Seq<char>)
    ensures
        s.map_values(|c: char| fold_char(c)).map_values(|c: char| fold_char(c)) == s.map_values(
            |c: char| fold_char(c),
        ),
{
    assert(s.map_values(|c: char| fold_char(c)).map_values(|c: char| fold_char(c)) =~= s.map_values(
        |c: char| fold_char(c),
    ));
}

} // verus!
