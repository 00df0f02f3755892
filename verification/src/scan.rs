//! Scanning a character sequence: the loops the HTML and CSS tokenizers share.
use vstd::prelude::*;
use crate::chars::{
    is_ascii_alnum, is_ascii_digit, is_ascii_ws, is_unicode_ws, ascii_alnum, ascii_digit,
    ascii_ws, unicode_ws, has_at, has_at_ci, chars_at, chars_at_ci,
};

verus! {

/// The classes of characters a scan can stop at.
#[derive(Clone, Copy)]
pub enum Stop {
    /// A given character.
    Char(char),
    /// Either of two given characters.
    EitherChar(char, char),
    /// Any character that is not ASCII white space.
    NotAsciiWs,
    /// The end of an HTML tag name (anything but ASCII letters, digits, `-`, `:`).
    TagNameEnd,
    /// The end of an HTML attribute name (`=`, `>`, `/` or ASCII white space).
    AttrNameEnd,
    /// The end of an unquoted attribute value (ASCII white space or `>`).
    UnquotedEnd,
    /// Any character that is not Unicode white space.
    NotUnicodeWs,
    /// The end of a CSS identifier (anything but ASCII letters, digits, `-`, `_`).
    IdentEnd,
    /// The end of a CSS number (anything but ASCII digits, `.`, `-`, `+`).
    NumberEnd,
    /// The end of a CSS value word (white space, `;`, `}`, `,` or `(`).
    WordEnd,
    /// Anything that is not an ASCII hex digit.
    NotHexDigit,
}

pub open spec fn is_tag_name_char(c: char) -> bool {
    is_ascii_alnum(c) || c == '-' || c == ':'
}

pub open spec fn is_ident_char(c: char) -> bool {
    is_ascii_alnum(c) || c == '-' || c == '_'
}

pub open spec fn is_number_char(c: char) -> bool {
    is_ascii_digit(c) || c == '.' || c == '-' || c == '+'
}

pub open spec fn stops_at(k: Stop, c: char) -> bool {
    match k {
        Stop::Char(t) => c == t,
        Stop::EitherChar(a, b) => c == a || c == b,
        Stop::NotAsciiWs => !is_ascii_ws(c),
        Stop::TagNameEnd => !is_tag_name_char(c),
        Stop::AttrNameEnd => c == '=' || c == '>' || c == '/' || is_ascii_ws(c),
        Stop::UnquotedEnd => is_ascii_ws(c) || c == '>',
        Stop::NotUnicodeWs => !is_unicode_ws(c),
        Stop::IdentEnd => !is_ident_char(c),
        Stop::NumberEnd => !is_number_char(c),
        Stop::WordEnd => is_unicode_ws(c) || c == ';' || c == '}' || c == ',' || c == '(',
        Stop::NotHexDigit => !crate::chars::is_hex_digit(c),
    }
}

/// Whether a scan of kind `k` stops at `c`.
pub fn stops(k: Stop, c: char) -> (r: bool)
    ensures
        r == stops_at(k, c),
{
    match k {
        Stop::Char(t) => c == t,
        Stop::EitherChar(a, b) => c == a || c == b,
        Stop::NotAsciiWs => !ascii_ws(c),
        Stop::TagNameEnd => !(ascii_alnum(c) || c == '-' || c == ':'),
        Stop::AttrNameEnd => c == '=' || c == '>' || c == '/' || ascii_ws(c),
        Stop::UnquotedEnd => ascii_ws(c) || c == '>',
        Stop::NotUnicodeWs => !unicode_ws(c),
        Stop::IdentEnd => !(ascii_alnum(c) || c == '-' || c == '_'),
        Stop::NumberEnd => !(ascii_digit(c) || c == '.' || c == '-' || c == '+'),
        Stop::WordEnd => unicode_ws(c) || c == ';' || c == '}' || c == ',' || c == '(',
        Stop::NotHexDigit => !crate::chars::hex_digit(c),
    }
}

/// The first position at or after `p` whose character stops the scan, or the
/// end of `s`.
pub open spec fn scan(s: Seq<char>, p: int, k: Stop) -> int
    decreases s.len() - p,
{
    if p < 0 || p >= s.len() || stops_at(k, s[p]) {
        p
    } else {
        scan(s, p + 1, k)
    }
}

pub proof fn lemma_scan(s: Seq<char>, p: int, k: Stop)
    requires
        0 <= p <= s.len(),
    ensures
        p <= scan(s, p, k) <= s.len(),
        forall|i: int| p <= i < scan(s, p, k) ==> !stops_at(k, #[trigger] s[i]),
        scan(s, p, k) < s.len() ==> stops_at(k, s[scan(s, p, k)]),
    decreases s.len() - p,
{
    if p < s.len() && !stops_at(k, s[p]) {
        lemma_scan(s, p + 1, k);
    }
}

/// Advance from `p` to the first character that stops the scan (or the end).
pub fn scan_to(s: &Vec<char>, p: usize, k: Stop) -> (r: usize)
    requires
        p <= s.len(),
    ensures
        r == scan(s@, p as int, k),
        p <= r <= s.len(),
{
    let mut i = p;
    while i < s.len() && !stops(k, s[i])
        invariant
            p <= i <= s.len(),
            scan(s@, p as int, k) == scan(s@, i as int, k),
        decreases s.len() - i,
    {
        i += 1;
    }
    proof {
        lemma_scan(s@, p as int, k);
    }
    i
}

/// The position just past the first `t` at or after `p`, or the end of `s`
/// (the "skip until this byte" loop).
pub open spec fn skip_past(s: Seq<char>, p: int, t: char) -> int {
    let i = scan(s, p, Stop::Char(t));
    if i < s.len() {
        i + 1
    } else {
        i
    }
}

/// The position just after the next `t` from `p` (or the end).
pub fn skip_past_char(s: &Vec<char>, p: usize, t: char) -> (r: usize)
    requires
        p <= s.len(),
    ensures
        r == skip_past(s@, p as int, t),
        p <= r <= s.len(),
        p < s.len() ==> p < r,
{
    let i = scan_to(s, p, Stop::Char(t));
    if i < s.len() {
        i + 1
    } else {
        i
    }
}

/// The first position at or after `p` where `pat` occurs, or the end of `s`.
pub open spec fn find(s: Seq<char>, p: int, pat: Seq<char>) -> int
    decreases s.len() - p,
{
    if p < 0 || p >= s.len() || has_at(s, p, pat) {
        p
    } else {
        find(s, p + 1, pat)
    }
}

/// Like [`find`], ignoring ASCII case.
pub open spec fn find_ci(s: Seq<char>, p: int, pat: Seq<char>) -> int
    decreases s.len() - p,
{
    if p < 0 || p >= s.len() || has_at_ci(s, p, pat) {
        p
    } else {
        find_ci(s, p + 1, pat)
    }
}

pub proof fn lemma_find(s: Seq<char>, p: int, pat: Seq<char>)
    requires
        0 <= p <= s.len(),
    ensures
        p <= find(s, p, pat) <= s.len(),
        p <= find_ci(s, p, pat) <= s.len(),
    decreases s.len() - p,
{
    if p < s.len() {
        lemma_find(s, p + 1, pat);
    }
}

/// The first position from `p` where `pat` occurs (or the end).
pub fn find_chars(s: &Vec<char>, p: usize, pat: &Vec<char>) -> (r: usize)
    requires
        p <= s.len(),
    ensures
        r == find(s@, p as int, pat@),
        p <= r <= s.len(),
{
    let mut i = p;
    while i < s.len() && !chars_at(s, i, pat)
        invariant
            p <= i <= s.len(),
            find(s@, p as int, pat@) == find(s@, i as int, pat@),
        decreases s.len() - i,
    {
        i += 1;
    }
    i
}

/// The first position from `p` where `pat` occurs, ignoring ASCII case (or the end).
pub fn find_chars_ci(s: &Vec<char>, p: usize, pat: &Vec<char>) -> (r: usize)
    requires
        p <= s.len(),
    ensures
        r == find_ci(s@, p as int, pat@),
        p <= r <= s.len(),
{
    let mut i = p;
    while i < s.len() && !chars_at_ci(s, i, pat)
        invariant
            p <= i <= s.len(),
            find_ci(s@, p as int, pat@) == find_ci(s@, i as int, pat@),
        decreases s.len() - i,
    {
        i += 1;
    }
    i
}

} // verus!
