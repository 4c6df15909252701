//! Character classes and the fixed classifier rule set.
//!
//! Three families of anchored regular expressions tag a string value as
//! "display only" (URLs and filesystem paths), "filter but not search"
//! (UUID-like tokens) or "sort and filter" (numeric or date-like tokens).
//! The matching itself is done by the `regex` crate; each pattern is simple
//! enough that the exact meaning of a match is stated as a spec function
//! over the character sequence.

use vstd::prelude::*;

verus! {

/// An ASCII hexadecimal digit, `[0-9a-fA-F]`.
pub open spec fn is_hex_char(c: char) -> bool {
    (48 <= c as u32 && c as u32 <= 57) || (97 <= c as u32 && c as u32 <= 102) || (65 <= c as u32
        && c as u32 <= 70)
}

/// An ASCII letter, `[a-zA-Z]`.
pub open spec fn is_ascii_alpha(c: char) -> bool {
    (97 <= c as u32 && c as u32 <= 122) || (65 <= c as u32 && c as u32 <= 90)
}

/// A character of a numeric or date-like token, `[0-9_\-\+:\.]`.
pub open spec fn is_numeric_token_char(c: char) -> bool {
    (48 <= c as u32 && c as u32 <= 57) || c == '_' || c == '-' || c == '+' || c == ':' || c == '.'
}

/// A path separator, `/` or `\`.
pub open spec fn is_slash(c: char) -> bool {
    c == '/' || c == '\\'
}

/// Whether `char::is_alphabetic` holds of `c`; beyond ASCII the Unicode
/// tables decide, so the value is only named here.
pub uninterp spec fn is_alpha_char(c: char) -> bool;

/// Relies on `char::is_alphabetic`: within ASCII exactly the letters are
/// alphabetic; beyond ASCII the result depends on the character alone.
#[verifier::external_body]
pub(crate) fn char_is_alphabetic(c: char) -> (r: bool)
    ensures
        r == is_alpha_char(c),
        is_ascii_alpha(c) ==> r,
        (c as u32) < 128 && !is_ascii_alpha(c) ==> !r,
{
    c.is_alphabetic()
}

/// The number of hexadecimal digits in `s`.
pub open spec fn hex_count(s: Seq<char>) -> nat
    decreases s.len(),
{
    if s.len() == 0 {
        0
    } else {
        hex_count(s.drop_last()) + if is_hex_char(s.last()) {
            1nat
        } else {
            0nat
        }
    }
}

/// The number of alphabetic characters in `s`.
pub open spec fn alpha_count(s: Seq<char>) -> nat
    decreases s.len(),
{
    if s.len() == 0 {
        0
    } else {
        alpha_count(s.drop_last()) + if is_alpha_char(s.last()) {
            1nat
        } else {
            0nat
        }
    }
}

/// A string "looks like an id" when it holds strictly more hexadecimal
/// digits than alphabetic characters.
pub open spec fn looks_like_id(s: Seq<char>) -> bool {
    hex_count(s) > alpha_count(s)
}

/// An ASCII hexadecimal digit test.
pub fn hex_char(c: char) -> (r: bool)
    ensures
        r == is_hex_char(c),
{
    let u = c as u32;
    (48 <= u && u <= 57) || (97 <= u && u <= 102) || (65 <= u && u <= 70)
}

/// Whether a string looks like an identifier: strictly more hexadecimal
/// digits than alphabetic characters.
pub fn look_like_id(s: &str) -> (r: bool)
    ensures
        r == looks_like_id(s@),
{
    let n = s.unicode_len();
    let mut hex: usize = 0;
    let mut alpha: usize = 0;
    let mut i: usize = 0;
    while i < n
        invariant
            i <= n,
            n == s@.len(),
            hex == hex_count(s@.subrange(0, i as int)),
            alpha == alpha_count(s@.subrange(0, i as int)),
            hex <= i,
            alpha <= i,
        decreases n - i,
    {
        let c = s.get_char(i);
        proof {
            let pre = s@.subrange(0, i as int);
            let post = s@.subrange(0, i as int + 1);
            assert(post.drop_last() =~= pre);
            assert(post.last() == c);
        }
        if hex_char(c) {
            hex = hex + 1;
        }
        if char_is_alphabetic(c) {
            alpha = alpha + 1;
        }
        i = i + 1;
    }
    proof {
        assert(s@.subrange(0, n as int) =~= s@);
    }
    hex > alpha
}

/// The UUID pattern: 8-4-4-4-12 hexadecimal digits joined by hyphens.
pub open spec fn is_uuid_spec(s: Seq<char>) -> bool {
    s.len() == 36 && forall|i: int|
        0 <= i < 36 ==> if i == 8 || i == 13 || i == 18 || i == 23 {
            s[i] == '-'
        } else {
            is_hex_char(s[i])
        }
}

/// The numeric-token pattern: one or more characters from `[0-9_\-\+:\.]`.
pub open spec fn is_numeric_token_spec(s: Seq<char>) -> bool {
    s.len() >= 1 && forall|i: int| 0 <= i < s.len() ==> is_numeric_token_char(s[i])
}

/// The filesystem-path pattern `^(.*[/\\])([^/\\]*)$`: some slash such that
/// no newline precedes it (`.` does not match newlines) and no slash
/// follows it.
pub open spec fn is_path_spec(s: Seq<char>) -> bool {
    exists|k: int|
        0 <= k < s.len() && is_slash(s[k]) && (forall|i: int| 0 <= i < k ==> s[i] != '\n') && (
        forall|i: int| k < i < s.len() ==> !is_slash(s[i]))
}

/// One decomposition of `s` as scheme (of length `p`), host component up to
/// `q1`, second host component up to `q2`, and tail.
pub open spec fn url_parts(s: Seq<char>, p: int, q1: int, q2: int) -> bool {
    {
            &&& (p == 7 || p == 8)
            &&& p < q1
            &&& q1 + 1 < q2 <= s.len()
            &&& s.len() >= p
            &&& s[0] == 'h' && s[1] == 't' && s[2] == 't' && s[3] == 'p'
            &&& (p == 7 ==> s[4] == ':' && s[5] == '/' && s[6] == '/')
            &&& (p == 8 ==> s[4] == 's' && s[5] == ':' && s[6] == '/' && s[7] == '/')
            &&& (forall|i: int| p <= i < q1 ==> is_ascii_alpha(s[i]))
            &&& s[q1] == '.'
            &&& (forall|i: int| q1 + 1 <= i < q2 ==> is_ascii_alpha(s[i]))
            &&& (q2 == s.len() || (s[q2] == '/' && forall|i: int|
                q2 <= i < s.len() ==> s[i] != ' ' && s[i] != ':'))
    }
}

/// The URL pattern `^https?://[a-zA-Z]+\.[a-zA-Z]+(/[^ :]+)*/?$`: a scheme,
/// a two-component alphabetic host, then either nothing or a tail that
/// starts with `/` and holds no space and no colon.
pub open spec fn is_url_spec(s: Seq<char>) -> bool {
    exists|p: int, q1: int, q2: int| #[trigger] url_parts(s, p, q1, q2)
}

/// Relies on `regex::Regex::is_match` with the anchored pattern
/// `^[0-9a-fA-F]{8}\b-[0-9a-fA-F]{4}\b-[0-9a-fA-F]{4}\b-[0-9a-fA-F]{4}\b-[0-9a-fA-F]{12}$`
/// (the word boundaries sit between a hexadecimal digit and a hyphen and
/// always hold): the match is exactly [`is_uuid_spec`].
#[verifier::external_body]
pub(crate) fn matches_uuid(s: &str) -> (r: bool)
    ensures
        r == is_uuid_spec(s@),
{
    regex::Regex::new(
        r"^[0-9a-fA-F]{8}\b-[0-9a-fA-F]{4}\b-[0-9a-fA-F]{4}\b-[0-9a-fA-F]{4}\b-[0-9a-fA-F]{12}$",
    ).unwrap().is_match(s)
}

/// Relies on `regex::Regex::is_match` with the anchored pattern
/// `^[0-9_\-\+:\.]+$`: the match is exactly [`is_numeric_token_spec`].
#[verifier::external_body]
pub(crate) fn matches_numeric_token(s: &str) -> (r: bool)
    ensures
        r == is_numeric_token_spec(s@),
{
    regex::Regex::new(r"^[0-9_\-\+:\.]+$").unwrap().is_match(s)
}

/// Relies on `regex::Regex::is_match` with the anchored pattern
/// `^(.*[/\\])([^/\\]*)$` (`.` matches anything but a newline, the classes
/// match newlines): the match is exactly [`is_path_spec`].
#[verifier::external_body]
pub(crate) fn matches_path(s: &str) -> (r: bool)
    ensures
        r == is_path_spec(s@),
{
    regex::Regex::new(r"^(.*[/\\])([^/\\]*)$").unwrap().is_match(s)
}

/// Relies on `regex::Regex::is_match` with the anchored pattern
/// `^https?://[a-zA-Z]+\.[a-zA-Z]+(/[^ :]+)*/?$` (a tail of `/`-led groups
/// of non-space non-colon characters, with an optional final `/`, is any
/// tail that starts with `/` and holds no space and no colon): the match is
/// exactly [`is_url_spec`].
#[verifier::external_body]
pub(crate) fn matches_url(s: &str) -> (r: bool)
    ensures
        r == is_url_spec(s@),
{
    regex::Regex::new(r"^https?://[a-zA-Z]+\.[a-zA-Z]+(/[^ :]+)*/?$").unwrap().is_match(s)
}

} // verus!
