//! A tolerant HTML parser: text in, [`Node`] tree out.
//!
//! Real-world HTML is messy: tags are left unclosed, elements are mis-nested,
//! attributes go unquoted and `<script>` bodies contain things that look like
//! tags. Like real browsers, this parser never fails: it does its best and keeps
//! going.
//!
//! A tokenizer walks the input once, recognising start tags, end tags, text,
//! comments and doctypes, and feeds a tree builder that keeps a stack of open
//! elements. The contract of [`parse`] is the model [`parse_html`]: the same
//! tokenizer and tree builder written as mathematical functions over the
//! characters of the input.
use vstd::prelude::*;
use crate::chars::{
    chars_of, lower_chars, lower_seq, has_at, has_at_ci, is_ascii_alpha, is_hex_digit,
    is_ascii_digit, str_eq_chars, string_of, vec2, vec4, chars_at, ascii_alpha,
};
use crate::dom::{
    self, AttrMap, DomKind, DomNode, Node, NodeType, attr_insert, attr_lookup, dom_comment,
    dom_elem, dom_text, nodes_view, lemma_nodes_view, lemma_nodes_view_push, tag_of,
};
use crate::scan::{Stop, find, find_ci, find_chars, find_chars_ci, lemma_find, lemma_scan, scan,
    scan_to, skip_past, skip_past_char};

verus! {

// --- Element categories --------------------------------------------------------

/// Elements that never have children or a closing tag.
pub open spec fn is_void_tag(t: Seq<char>) -> bool {
    t == "area"@ || t == "base"@ || t == "br"@ || t == "col"@ || t == "embed"@ || t == "hr"@
        || t == "img"@ || t == "input"@ || t == "link"@ || t == "meta"@ || t == "param"@
        || t == "source"@ || t == "track"@ || t == "wbr"@ || t == "path"@ || t == "circle"@
}

/// Elements whose content is raw text, read verbatim up to the closing tag.
pub open spec fn is_raw_text_tag(t: Seq<char>) -> bool {
    t == "script"@ || t == "style"@ || t == "textarea"@ || t == "title"@ || t == "noscript"@
}

/// Opening `opening` implicitly closes an open `current` element.
pub open spec fn implied_close(opening: Seq<char>, current: Seq<char>) -> bool {
    if opening == "li"@ {
        current == "li"@
    } else if opening == "dt"@ || opening == "dd"@ {
        current == "dt"@ || current == "dd"@
    } else if opening == "option"@ {
        current == "option"@
    } else if opening == "tr"@ {
        current == "tr"@ || current == "td"@ || current == "th"@
    } else if opening == "td"@ || opening == "th"@ {
        current == "td"@ || current == "th"@
    } else if opening == "thead"@ || opening == "tbody"@ || opening == "tfoot"@ {
        current == "td"@ || current == "th"@ || current == "tr"@ || current == "thead"@
            || current == "tbody"@ || current == "tfoot"@
    } else if opening == "p"@ || opening == "div"@ || opening == "ul"@ || opening == "ol"@
        || opening == "table"@ || opening == "blockquote"@ || opening == "pre"@ || opening
        == "section"@ || opening == "article"@ || opening == "header"@ || opening == "footer"@
        || opening == "nav"@ || opening == "aside"@ || opening == "form"@ || opening == "hr"@
        || opening == "h1"@ || opening == "h2"@ || opening == "h3"@ || opening == "h4"@
        || opening == "h5"@ || opening == "h6"@ {
        current == "p"@
    } else {
        false
    }
}

fn is_void(tag: &Vec<char>) -> (r: bool)
    ensures
        r == is_void_tag(tag@),
{
    str_eq_chars("area", tag) || str_eq_chars("base", tag) || str_eq_chars("br", tag)
        || str_eq_chars("col", tag) || str_eq_chars("embed", tag) || str_eq_chars("hr", tag)
        || str_eq_chars("img", tag) || str_eq_chars("input", tag) || str_eq_chars("link", tag)
        || str_eq_chars("meta", tag) || str_eq_chars("param", tag) || str_eq_chars("source", tag)
        || str_eq_chars("track", tag) || str_eq_chars("wbr", tag) || str_eq_chars("path", tag)
        || str_eq_chars("circle", tag)
}

fn is_raw_text(tag: &Vec<char>) -> (r: bool)
    ensures
        r == is_raw_text_tag(tag@),
{
    str_eq_chars("script", tag) || str_eq_chars("style", tag) || str_eq_chars("textarea", tag)
        || str_eq_chars("title", tag) || str_eq_chars("noscript", tag)
}

fn should_close(opening: &Vec<char>, current: &str) -> (r: bool)
    ensures
        r == implied_close(opening@, current@),
{
    let c = chars_of(current);
    let o = opening;
    if str_eq_chars("li", o) {
        str_eq_chars("li", &c)
    } else if str_eq_chars("dt", o) || str_eq_chars("dd", o) {
        str_eq_chars("dt", &c) || str_eq_chars("dd", &c)
    } else if str_eq_chars("option", o) {
        str_eq_chars("option", &c)
    } else if str_eq_chars("tr", o) {
        str_eq_chars("tr", &c) || str_eq_chars("td", &c) || str_eq_chars("th", &c)
    } else if str_eq_chars("td", o) || str_eq_chars("th", o) {
        str_eq_chars("td", &c) || str_eq_chars("th", &c)
    } else if str_eq_chars("thead", o) || str_eq_chars("tbody", o) || str_eq_chars("tfoot", o) {
        str_eq_chars("td", &c) || str_eq_chars("th", &c) || str_eq_chars("tr", &c)
            || str_eq_chars("thead", &c) || str_eq_chars("tbody", &c) || str_eq_chars(
            "tfoot",
            &c,
        )
    } else if str_eq_chars("p", o) || str_eq_chars("div", o) || str_eq_chars("ul", o)
        || str_eq_chars("ol", o) || str_eq_chars("table", o) || str_eq_chars("blockquote", o)
        || str_eq_chars("pre", o) || str_eq_chars("section", o) || str_eq_chars("article", o)
        || str_eq_chars("header", o) || str_eq_chars("footer", o) || str_eq_chars("nav", o)
        || str_eq_chars("aside", o) || str_eq_chars("form", o) || str_eq_chars("hr", o)
        || str_eq_chars("h1", o) || str_eq_chars("h2", o) || str_eq_chars("h3", o)
        || str_eq_chars("h4", o) || str_eq_chars("h5", o) || str_eq_chars("h6", o) {
        str_eq_chars("p", &c)
    } else {
        false
    }
}

// --- The tree builder, as a model -----------------------------------------------

/// What the tokenizer asks the tree builder to do.
pub enum HtmlOp {
    Open(Seq<char>, Seq<(Seq<char>, Seq<char>)>),
    /// A start tag whose element takes no content (a void tag or an explicit `/>`).
    Empty(Seq<char>, Seq<(Seq<char>, Seq<char>)>),
    Close(Seq<char>),
    Text(Seq<char>),
    Comment(Seq<char>),
}

/// The synthetic root that collects the document before `finish`.
pub open spec fn document_root() -> DomNode {
    dom_elem("#document"@, Seq::empty(), Seq::empty())
}

/// Attach `n` as the last child of the current (innermost) open element.
pub open spec fn append(st: Seq<DomNode>, n: DomNode) -> Seq<DomNode> {
    st.update(
        st.len() - 1,
        DomNode { children: st.last().children.push(n), kind: st.last().kind },
    )
}

/// Close the innermost open element, attaching it to its parent.
pub open spec fn pop_append(st: Seq<DomNode>) -> Seq<DomNode> {
    append(st.drop_last(), st.last())
}

/// Close the open elements that opening `opening` implicitly ends.
pub open spec fn close_implied(st: Seq<DomNode>, opening: Seq<char>) -> Seq<DomNode>
    decreases st.len(),
{
    if st.len() > 1 && tag_of(st.last()) is Some && implied_close(
        opening,
        tag_of(st.last()).unwrap(),
    ) {
        close_implied(pop_append(st), opening)
    } else {
        st
    }
}

/// Open an element after the end tags it implies; one that takes no content
/// (`empty`, or a void tag) is attached at once instead of left open.
pub open spec fn open_tag(
    st: Seq<DomNode>,
    tag: Seq<char>,
    attrs: Seq<(Seq<char>, Seq<char>)>,
    empty: bool,
) -> Seq<DomNode> {
    let st1 = close_implied(st, tag);
    let node = dom_elem(tag, attrs, Seq::empty());
    if empty || is_void_tag(tag) {
        append(st1, node)
    } else {
        st1.push(node)
    }
}

/// The index of the innermost open element named `tag`, or -1.
pub open spec fn last_index_of_tag(st: Seq<DomNode>, tag: Seq<char>) -> int
    decreases st.len(),
{
    if st.len() == 0 {
        -1
    } else if tag_of(st.last()) == Some(tag) {
        st.len() - 1
    } else {
        last_index_of_tag(st.drop_last(), tag)
    }
}

/// Close open elements until only `idx` of them remain.
pub open spec fn pop_to(st: Seq<DomNode>, idx: int) -> Seq<DomNode>
    decreases st.len(),
{
    if idx >= 1 && st.len() > idx {
        pop_to(pop_append(st), idx)
    } else {
        st
    }
}

/// An end tag closes the nearest matching open element and everything opened
/// after it; an unmatched end tag is ignored, and the root is never closed.
pub open spec fn close_tag(st: Seq<DomNode>, tag: Seq<char>) -> Seq<DomNode> {
    let idx = last_index_of_tag(st, tag);
    if idx >= 1 {
        pop_to(st, idx)
    } else {
        st
    }
}

pub open spec fn apply_op(st: Seq<DomNode>, op: HtmlOp) -> Seq<DomNode> {
    match op {
        HtmlOp::Open(tag, attrs) => open_tag(st, tag, attrs, false),
        HtmlOp::Empty(tag, attrs) => open_tag(st, tag, attrs, true),
        HtmlOp::Close(tag) => close_tag(st, tag),
        HtmlOp::Text(d) => if d.len() == 0 {
            st
        } else {
            append(st, dom_text(d))
        },
        HtmlOp::Comment(d) => append(st, dom_comment(d)),
    }
}

pub open spec fn apply_ops(st: Seq<DomNode>, ops: Seq<HtmlOp>) -> Seq<DomNode>
    decreases ops.len(),
{
    if ops.len() == 0 {
        st
    } else {
        apply_ops(apply_op(st, ops[0]), ops.drop_first())
    }
}

/// The number of `<html>` elements among `cs`.
pub open spec fn html_count(cs: Seq<DomNode>) -> nat
    decreases cs.len(),
{
    if cs.len() == 0 {
        0
    } else {
        html_count(cs.drop_last()) + if tag_of(cs.last()) == Some("html"@) {
            1nat
        } else {
            0nat
        }
    }
}

/// The index of the first `<html>` element among `cs` (or `cs.len()`).
pub open spec fn first_html(cs: Seq<DomNode>) -> int
    decreases cs.len(),
{
    if cs.len() == 0 {
        0
    } else if tag_of(cs[0]) == Some("html"@) {
        0
    } else {
        1 + first_html(cs.drop_first())
    }
}

/// Close everything still open; the document is its single `<html>` child if
/// it has exactly one, otherwise a synthetic `<html>` around its children.
pub open spec fn finish(st: Seq<DomNode>) -> DomNode {
    let root = pop_to(st, 1)[0];
    if html_count(root.children) == 1 {
        root.children[first_html(root.children)]
    } else {
        dom_elem("html"@, Seq::empty(), root.children)
    }
}

// --- Character references, as a model -----------------------------------------

pub open spec fn digit_val(c: char, radix: nat) -> Option<nat> {
    if is_ascii_digit(c) {
        Some((c as u32 - '0' as u32) as nat)
    } else if radix == 16 && 'a' <= c && c <= 'f' {
        Some((c as u32 - 'a' as u32 + 10) as nat)
    } else if radix == 16 && 'A' <= c && c <= 'F' {
        Some((c as u32 - 'A' as u32 + 10) as nat)
    } else {
        None
    }
}

pub open spec fn all_digits(s: Seq<char>, radix: nat) -> bool {
    forall|i: int| 0 <= i < s.len() ==> (#[trigger] digit_val(s[i], radix)) is Some
}

pub open spec fn digits_value(s: Seq<char>, radix: nat) -> nat
    decreases s.len(),
{
    if s.len() == 0 {
        0
    } else {
        digits_value(s.drop_last(), radix) * radix + digit_val(s.last(), radix).unwrap_or(0)
    }
}

/// `u32::from_str_radix(s, radix).ok()` for radix 10 or 16: an optional `+`,
/// then at least one digit, and a value that fits in 32 bits.
pub open spec fn parse_uint(s: Seq<char>, radix: nat) -> Option<u32> {
    let d = if s.len() > 0 && s[0] == '+' {
        s.drop_first()
    } else {
        s
    };
    if d.len() > 0 && all_digits(d, radix) && digits_value(d, radix) <= u32::MAX {
        Some(digits_value(d, radix) as u32)
    } else {
        None
    }
}

/// A Unicode scalar value: a code point that is not a surrogate.
pub open spec fn is_unicode_scalar(v: u32) -> bool {
    v < 0xD800 || (0xE000 <= v && v <= 0x10FFFF)
}

/// The named character references the parser knows.
pub open spec fn named_entity(e: Seq<char>) -> Option<Seq<char>> {
    if e == "hearts"@ {
        Some("\u{2665}"@)
    } else if e == "dagger"@ {
        Some("\u{2020}"@)
    } else if e == "spades"@ {
        Some("\u{2660}"@)
    } else if e == "amp"@ {
        Some("&"@)
    } else if e == "lt"@ {
        Some("<"@)
    } else if e == "gt"@ {
        Some(">"@)
    } else if e == "quot"@ {
        Some("\""@)
    } else if e == "apos"@ {
        Some("'"@)
    } else if e == "nbsp"@ {
        Some("\u{a0}"@)
    } else if e == "copy"@ {
        Some("\u{a9}"@)
    } else if e == "reg"@ {
        Some("\u{ae}"@)
    } else if e == "trade"@ {
        Some("\u{2122}"@)
    } else if e == "mdash"@ {
        Some("\u{2014}"@)
    } else if e == "ndash"@ {
        Some("\u{2013}"@)
    } else if e == "hellip"@ {
        Some("\u{2026}"@)
    } else if e == "ldquo"@ {
        Some("\u{201c}"@)
    } else if e == "rdquo"@ {
        Some("\u{201d}"@)
    } else if e == "lsquo"@ {
        Some("\u{2018}"@)
    } else if e == "rsquo"@ {
        Some("\u{2019}"@)
    } else if e == "middot"@ {
        Some("\u{b7}"@)
    } else if e == "bull"@ {
        Some("\u{2022}"@)
    } else if e == "deg"@ {
        Some("\u{b0}"@)
    } else if e == "times"@ {
        Some("\u{d7}"@)
    } else if e == "divide"@ {
        Some("\u{f7}"@)
    } else if e == "frac12"@ {
        Some("\u{bd}"@)
    } else if e == "rarr"@ {
        Some("\u{2192}"@)
    } else if e == "larr"@ {
        Some("\u{2190}"@)
    } else if e == "euro"@ {
        Some("\u{20ac}"@)
    } else if e == "pound"@ {
        Some("\u{a3}"@)
    } else if e == "cent"@ {
        Some("\u{a2}"@)
    } else if e == "sect"@ {
        Some("\u{a7}"@)
    } else if e == "para"@ {
        Some("\u{b6}"@)
    } else {
        None
    }
}

/// The text a character reference `&e;` stands for: a numeric reference
/// (`#163`, `#x263A`) to a Unicode scalar value, or a known name.
pub open spec fn decode_entity(e: Seq<char>) -> Option<Seq<char>> {
    if e.len() > 0 && e[0] == '#' {
        let num = e.drop_first();
        let code = if num.len() > 0 && (num[0] == 'x' || num[0] == 'X') {
            parse_uint(num.drop_first(), 16)
        } else {
            parse_uint(num, 10)
        };
        match code {
            Some(c) => if is_unicode_scalar(c) {
                Some(seq![c as char])
            } else {
                None
            },
            None => None,
        }
    } else {
        named_entity(e)
    }
}

/// For `s` starting with `&`: the position of the `;` ending a reference, if
/// it is the first `;` and at most 32 characters on.
pub open spec fn entity_end(s: Seq<char>) -> int {
    let k = scan(s, 1, Stop::Char(';'));
    if k < s.len() && k <= 32 {
        k
    } else {
        -1
    }
}

/// Replace the character references in `s` by the text they stand for;
/// anything that is not a known reference is kept as it is.
pub open spec fn decode(s: Seq<char>) -> Seq<char>
    decreases s.len(),
{
    if s.len() == 0 {
        Seq::empty()
    } else if s[0] != '&' {
        seq![s[0]] + decode(s.drop_first())
    } else {
        let k = entity_end(s);
        if k > 0 && decode_entity(s.subrange(1, k)) is Some {
            proof {
                lemma_scan(s, 1, Stop::Char(';'));
            }
            decode_entity(s.subrange(1, k)).unwrap() + decode(s.skip(k + 1))
        } else {
            seq!['&'] + decode(s.drop_first())
        }
    }
}

// --- The tokenizer, as a model ---------------------------------------------------

/// A tag name at `p`: ASCII letters, digits, `-` and `:`, lower-cased.
pub open spec fn read_tag_name(s: Seq<char>, p: int) -> (Seq<char>, int) {
    let e = scan(s, p, Stop::TagNameEnd);
    (lower_seq(s.subrange(p, e)), e)
}

/// An attribute value at `p`: quoted (up to the matching quote) or unquoted
/// (up to white space or `>`), with character references decoded.
pub open spec fn read_attr_value(s: Seq<char>, p: int) -> (Seq<char>, int) {
    if p < s.len() && (s[p] == '"' || s[p] == '\'') {
        let e = scan(s, p + 1, Stop::Char(s[p]));
        (decode(s.subrange(p + 1, e)), if e < s.len() {
            e + 1
        } else {
            e
        })
    } else {
        let e = scan(s, p, Stop::UnquotedEnd);
        (decode(s.subrange(p, e)), e)
    }
}

/// One attribute at `p`: a lower-cased name and, after `=`, a value.
pub open spec fn read_attribute(s: Seq<char>, p: int) -> (Seq<char>, Seq<char>, int) {
    let e = scan(s, p, Stop::AttrNameEnd);
    let name = lower_seq(s.subrange(p, e));
    let p2 = scan(s, e, Stop::NotAsciiWs);
    if p2 < s.len() && s[p2] == '=' {
        let p3 = scan(s, p2 + 1, Stop::NotAsciiWs);
        let (v, p4) = read_attr_value(s, p3);
        (name, v, p4)
    } else {
        (name, Seq::empty(), p2)
    }
}

/// Attributes up to `>` or `/>`; the first value of a repeated name wins.
/// Returns the attributes, whether the tag was self-closing, and the position
/// after the tag.
pub open spec fn read_attributes(
    s: Seq<char>,
    p: int,
    attrs: Seq<(Seq<char>, Seq<char>)>,
) -> (Seq<(Seq<char>, Seq<char>)>, bool, int)
    decreases s.len() - p,
{
    let p1 = scan(s, p, Stop::NotAsciiWs);
    if p < 0 || p > s.len() || p1 >= s.len() {
        (attrs, false, p1)
    } else if s[p1] == '>' {
        (attrs, false, p1 + 1)
    } else if s[p1] == '/' {
        if p1 + 1 < s.len() && s[p1 + 1] == '>' {
            (attrs, true, p1 + 2)
        } else {
            proof {
                lemma_scan(s, p, Stop::NotAsciiWs);
            }
            read_attributes(s, p1 + 1, attrs)
        }
    } else {
        let (name, value, p2) = read_attribute(s, p1);
        let attrs2 = if name.len() > 0 && attr_lookup(attrs, name) is None {
            attr_insert(attrs, name, value)
        } else {
            attrs
        };
        proof {
            lemma_scan(s, p, Stop::NotAsciiWs);
            lemma_read_attribute(s, p1);
        }
        read_attributes(s, p2, attrs2)
    }
}

/// The verbatim body of a raw-text element up to `</tag` (any case), with
/// references decoded in `<title>` and `<textarea>`, and the position after the
/// closing tag.
pub open spec fn raw_text(s: Seq<char>, p: int, tag: Seq<char>) -> (Seq<char>, int) {
    let close = seq!['<', '/'] + tag;
    let e = find_ci(s, p, close);
    let raw = s.subrange(p, e);
    let text = if tag == "title"@ || tag == "textarea"@ {
        decode(raw)
    } else {
        raw
    };
    (text, if has_at_ci(s, e, close) {
        skip_past(s, e + close.len(), '>')
    } else {
        e
    })
}

/// A start tag at `pos` (a `<` followed by a letter).
pub open spec fn start_tag(s: Seq<char>, pos: int) -> (Seq<HtmlOp>, int) {
    let (tag, p2) = read_tag_name(s, pos + 1);
    let (attrs, self_closing, p3) = read_attributes(s, p2, Seq::empty());
    if self_closing || is_void_tag(tag) {
        (seq![HtmlOp::Empty(tag, attrs)], p3)
    } else if is_raw_text_tag(tag) {
        let (t, p4) = raw_text(s, p3, tag);
        (seq![HtmlOp::Open(tag, attrs), HtmlOp::Text(t), HtmlOp::Close(tag)], p4)
    } else {
        (seq![HtmlOp::Open(tag, attrs)], p3)
    }
}

/// One step of the tokenizer at `pos`: the builder operations it produces and
/// where the next step starts.
pub open spec fn step(s: Seq<char>, pos: int) -> (Seq<HtmlOp>, int) {
    if has_at(s, pos, seq!['<', '!', '-', '-']) {
        let e = find(s, pos + 4, seq!['-', '-', '>']);
        (seq![HtmlOp::Comment(s.subrange(pos + 4, e))], if has_at(s, e, seq!['-', '-', '>']) {
            e + 3
        } else {
            e
        })
    } else if has_at(s, pos, seq!['<', '!']) || has_at(s, pos, seq!['<', '?']) {
        (Seq::empty(), skip_past(s, pos, '>'))
    } else if has_at(s, pos, seq!['<', '/']) {
        let (tag, p2) = read_tag_name(s, pos + 2);
        (seq![HtmlOp::Close(tag)], skip_past(s, p2, '>'))
    } else if s[pos] == '<' && pos + 1 < s.len() && is_ascii_alpha(s[pos + 1]) {
        start_tag(s, pos)
    } else {
        let e = scan(s, pos, Stop::Char('<'));
        let e2 = if e == pos {
            pos + 1
        } else {
            e
        };
        (seq![HtmlOp::Text(decode(s.subrange(pos, e2)))], e2)
    }
}

/// Run the tokenizer from `pos` to the end, feeding the builder stack `st`.
pub open spec fn run(s: Seq<char>, st: Seq<DomNode>, pos: int) -> Seq<DomNode>
    decreases s.len() - pos,
{
    if pos < 0 || pos >= s.len() {
        st
    } else {
        proof {
            lemma_step(s, pos);
        }
        run(s, apply_ops(st, step(s, pos).0), step(s, pos).1)
    }
}

/// The document parsed from the characters `s`.
pub open spec fn parse_html(s: Seq<char>) -> DomNode {
    finish(run(s, seq![document_root()], 0))
}

/// The nodes at the top level of the document `s`, in source order, once
/// everything left open has been closed.
pub open spec fn top_level_nodes(s: Seq<char>) -> Seq<DomNode> {
    pop_to(run(s, seq![document_root()], 0), 1)[0].children
}

// --- Progress of the tokenizer --------------------------------------------------

pub proof fn lemma_read_attribute(s: Seq<char>, p: int)
    requires
        0 <= p < s.len(),
        !crate::chars::is_ascii_ws(s[p]),
        s[p] != '>',
        s[p] != '/',
    ensures
        p < read_attribute(s, p).2 <= s.len(),
{
    let e = scan(s, p, Stop::AttrNameEnd);
    lemma_scan(s, p, Stop::AttrNameEnd);
    lemma_scan(s, e, Stop::NotAsciiWs);
    let p2 = scan(s, e, Stop::NotAsciiWs);
    if p2 < s.len() && s[p2] == '=' {
        lemma_scan(s, p2 + 1, Stop::NotAsciiWs);
        let p3 = scan(s, p2 + 1, Stop::NotAsciiWs);
        if p3 < s.len() && (s[p3] == '"' || s[p3] == '\'') {
            lemma_scan(s, p3 + 1, Stop::Char(s[p3]));
        } else {
            lemma_scan(s, p3, Stop::UnquotedEnd);
        }
    }
}

pub proof fn lemma_read_attributes(s: Seq<char>, p: int, attrs: Seq<(Seq<char>, Seq<char>)>)
    requires
        0 <= p <= s.len(),
    ensures
        p <= read_attributes(s, p, attrs).2 <= s.len(),
    decreases s.len() - p,
{
    lemma_scan(s, p, Stop::NotAsciiWs);
    let p1 = scan(s, p, Stop::NotAsciiWs);
    if p1 < s.len() && s[p1] != '>' {
        if s[p1] == '/' {
            if !(p1 + 1 < s.len() && s[p1 + 1] == '>') {
                lemma_read_attributes(s, p1 + 1, attrs);
            }
        } else {
            let (name, value, p2) = read_attribute(s, p1);
            lemma_read_attribute(s, p1);
            let attrs2 = if name.len() > 0 && attr_lookup(attrs, name) is None {
                attr_insert(attrs, name, value)
            } else {
                attrs
            };
            lemma_read_attributes(s, p2, attrs2);
        }
    }
}

pub proof fn lemma_step(s: Seq<char>, pos: int)
    requires
        0 <= pos < s.len(),
    ensures
        pos < step(s, pos).1 <= s.len(),
{
    if has_at(s, pos, seq!['<', '!', '-', '-']) {
        lemma_find(s, pos + 4, seq!['-', '-', '>']);
    } else if has_at(s, pos, seq!['<', '!']) || has_at(s, pos, seq!['<', '?']) {
        lemma_scan(s, pos, Stop::Char('>'));
    } else if has_at(s, pos, seq!['<', '/']) {
        lemma_scan(s, pos + 2, Stop::TagNameEnd);
        lemma_scan(s, read_tag_name(s, pos + 2).1, Stop::Char('>'));
    } else if s[pos] == '<' && pos + 1 < s.len() && is_ascii_alpha(s[pos + 1]) {
        lemma_scan(s, pos + 1, Stop::TagNameEnd);
        let (tag, p2) = read_tag_name(s, pos + 1);
        lemma_read_attributes(s, p2, Seq::empty());
        let (attrs, sc, p3) = read_attributes(s, p2, Seq::empty());
        let close = seq!['<', '/'] + tag;
        lemma_find(s, p3, close);
        let e = find_ci(s, p3, close);
        if has_at_ci(s, e, close) {
            lemma_scan(s, e + close.len(), Stop::Char('>'));
        }
    } else {
        lemma_scan(s, pos, Stop::Char('<'));
    }
}


// --- Executable character references -------------------------------------------

/// `char::from_u32`: the `char` for a Unicode scalar value, `None` otherwise.
pub assume_specification[ core::char::from_u32 ](i: u32) -> (r: Option<char>)
    ensures
        r == (if is_unicode_scalar(i) {
            Some(i as char)
        } else {
            None
        }),
;

proof fn lemma_digits_value_monotonic(s: Seq<char>, radix: nat)
    requires
        radix >= 1,
    ensures
        forall|k: int| 0 <= k <= s.len() ==> digits_value(s.take(k), radix) <= digits_value(s, radix),
    decreases s.len(),
{
    if s.len() > 0 {
        lemma_digits_value_monotonic(s.drop_last(), radix);
        let a = digits_value(s.drop_last(), radix);
        assert(a * radix >= a) by (nonlinear_arith)
            requires
                radix >= 1,
        ;
        assert forall|k: int| 0 <= k <= s.len() implies digits_value(s.take(k), radix)
            <= digits_value(s, radix) by {
            if k < s.len() {
                assert(s.take(k) == s.drop_last().take(k));
            } else {
                assert(s.take(k) == s);
            }
        }
    }
}

/// `u32::from_str_radix(s, radix).ok()` for radix 10 or 16.
fn parse_uint_exec(s: &Vec<char>, radix: u32) -> (r: Option<u32>)
    requires
        radix == 10 || radix == 16,
    ensures
        r == parse_uint(s@, radix as nat),
{
    let start: usize = if s.len() > 0 && s[0] == '+' {
        1
    } else {
        0
    };
    let ghost d = if s@.len() > 0 && s@[0] == '+' {
        s@.drop_first()
    } else {
        s@
    };
    assert(d == s@.skip(start as int));
    if start >= s.len() {
        return None;
    }
    let mut acc: u64 = 0;
    let mut i = start;
    while i < s.len()
        invariant
            start <= i <= s.len(),
            radix == 10 || radix == 16,
            d == s@.skip(start as int),
            d == (if s@.len() > 0 && s@[0] == '+' {
                s@.drop_first()
            } else {
                s@
            }),
            all_digits(d.take(i - start), radix as nat),
            acc == digits_value(d.take(i - start), radix as nat),
            acc <= u32::MAX,
        decreases s.len() - i,
    {
        let c = s[i];
        let dv: u64 = if '0' <= c && c <= '9' {
            (c as u64) - ('0' as u64)
        } else if radix == 16 && 'a' <= c && c <= 'f' {
            (c as u64) - ('a' as u64) + 10
        } else if radix == 16 && 'A' <= c && c <= 'F' {
            (c as u64) - ('A' as u64) + 10
        } else {
            assert(d[i - start] == c);
            assert(digit_val(d[i - start], radix as nat) is None);
            assert(!all_digits(d, radix as nat));
            assert(parse_uint(s@, radix as nat) is None);
            return None;
        };
        let ghost k = i - start;
        assert(d.take(k + 1).drop_last() == d.take(k));
        assert(d.take(k + 1).last() == c);
        assert(digit_val(c, radix as nat) == Some(dv as nat));
        assert(acc * (radix as u64) <= 0xFFFF_FFFFu64 * 16) by (nonlinear_arith)
            requires
                acc <= u32::MAX,
                radix <= 16,
        ;
        let next = acc * (radix as u64) + dv;
        assert(next == digits_value(d.take(k + 1), radix as nat));
        assert(all_digits(d.take(k + 1), radix as nat)) by {
            assert forall|j: int| 0 <= j < d.take(k + 1).len() implies (#[trigger] digit_val(
                d.take(k + 1)[j],
                radix as nat,
            )) is Some by {
                if j < k {
                    assert(d.take(k + 1)[j] == d.take(k)[j]);
                }
            }
        }
        if next > 0xFFFF_FFFFu64 {
            proof {
                lemma_digits_value_monotonic(d, radix as nat);
                assert(digits_value(d.take(k + 1), radix as nat) <= digits_value(d, radix as nat));
            }
            return None;
        }
        acc = next;
        i += 1;
    }
    assert(d.take(i - start) == d);
    Some(acc as u32)
}

fn push_str_chars(out: &mut Vec<char>, s: &str)
    ensures
        final(out)@ == old(out)@ + s@,
{
    let v = chars_of(s);
    let mut i: usize = 0;
    while i < v.len()
        invariant
            i <= v.len(),
            v@ == s@,
            out@ == old(out)@ + v@.take(i as int),
        decreases v.len() - i,
    {
        out.push(v[i]);
        i += 1;
        assert(v@.take(i as int) == v@.take(i - 1).push(v@[i - 1]));
    }
    assert(v@.take(v.len() as int) == v@);
}

fn named_entity_exec(e: &Vec<char>) -> (r: Option<&'static str>)
    ensures
        match r {
            Some(t) => named_entity(e@) == Some(t@),
            None => named_entity(e@) is None,
        },
{
    if str_eq_chars("hearts", e) {
        Some("\u{2665}")
    } else if str_eq_chars("dagger", e) {
        Some("\u{2020}")
    } else if str_eq_chars("spades", e) {
        Some("\u{2660}")
    } else if str_eq_chars("amp", e) {
        Some("&")
    } else if str_eq_chars("lt", e) {
        Some("<")
    } else if str_eq_chars("gt", e) {
        Some(">")
    } else if str_eq_chars("quot", e) {
        Some("\"")
    } else if str_eq_chars("apos", e) {
        Some("'")
    } else if str_eq_chars("nbsp", e) {
        Some("\u{a0}")
    } else if str_eq_chars("copy", e) {
        Some("\u{a9}")
    } else if str_eq_chars("reg", e) {
        Some("\u{ae}")
    } else if str_eq_chars("trade", e) {
        Some("\u{2122}")
    } else if str_eq_chars("mdash", e) {
        Some("\u{2014}")
    } else if str_eq_chars("ndash", e) {
        Some("\u{2013}")
    } else if str_eq_chars("hellip", e) {
        Some("\u{2026}")
    } else if str_eq_chars("ldquo", e) {
        Some("\u{201c}")
    } else if str_eq_chars("rdquo", e) {
        Some("\u{201d}")
    } else if str_eq_chars("lsquo", e) {
        Some("\u{2018}")
    } else if str_eq_chars("rsquo", e) {
        Some("\u{2019}")
    } else if str_eq_chars("middot", e) {
        Some("\u{b7}")
    } else if str_eq_chars("bull", e) {
        Some("\u{2022}")
    } else if str_eq_chars("deg", e) {
        Some("\u{b0}")
    } else if str_eq_chars("times", e) {
        Some("\u{d7}")
    } else if str_eq_chars("divide", e) {
        Some("\u{f7}")
    } else if str_eq_chars("frac12", e) {
        Some("\u{bd}")
    } else if str_eq_chars("rarr", e) {
        Some("\u{2192}")
    } else if str_eq_chars("larr", e) {
        Some("\u{2190}")
    } else if str_eq_chars("euro", e) {
        Some("\u{20ac}")
    } else if str_eq_chars("pound", e) {
        Some("\u{a3}")
    } else if str_eq_chars("cent", e) {
        Some("\u{a2}")
    } else if str_eq_chars("sect", e) {
        Some("\u{a7}")
    } else if str_eq_chars("para", e) {
        Some("\u{b6}")
    } else {
        None
    }
}

/// The text the character reference `&e;` stands for, if it is one.
fn decode_one_entity(e: &Vec<char>) -> (r: Option<Vec<char>>)
    ensures
        match r {
            Some(t) => decode_entity(e@) == Some(t@),
            None => decode_entity(e@) is None,
        },
{
    if e.len() > 0 && e[0] == '#' {
        let num = crate::chars::slice_chars(e, 1, e.len());
        assert(num@ == e@.drop_first());
        let code = if num.len() > 0 && (num[0] == 'x' || num[0] == 'X') {
            let hex = crate::chars::slice_chars(&num, 1, num.len());
            assert(hex@ == num@.drop_first());
            parse_uint_exec(&hex, 16)
        } else {
            parse_uint_exec(&num, 10)
        };
        match code {
            Some(c) => match core::char::from_u32(c) {
                Some(ch) => {
                    let mut v = Vec::new();
                    v.push(ch);
                    assert(v@ =~= seq![c as char]);
                    Some(v)
                },
                None => None,
            },
            None => None,
        }
    } else {
        match named_entity_exec(e) {
            Some(t) => {
                let mut v = Vec::new();
                push_str_chars(&mut v, t);
                assert(v@ =~= t@);
                Some(v)
            },
            None => None,
        }
    }
}

pub proof fn lemma_scan_skip(s: Seq<char>, i: int, p: int, k: Stop)
    requires
        0 <= i <= s.len(),
        0 <= p,
    ensures
        scan(s.skip(i), p, k) == if i + p <= s.len() {
            scan(s, i + p, k) - i
        } else {
            p
        },
    decreases s.len() - i - p,
{
    if i + p < s.len() && !crate::scan::stops_at(k, s[i + p]) {
        lemma_scan_skip(s, i, p + 1, k);
    }
}

/// Replace character references in `raw` by the text they stand for.
fn decode_entities(raw: &Vec<char>) -> (r: Vec<char>)
    ensures
        r@ == decode(raw@),
{
    let mut out: Vec<char> = Vec::new();
    let mut i: usize = 0;
    let n = raw.len();
    assert(raw@.skip(0) == raw@);
    while i < n
        invariant
            n == raw@.len(),
            i <= n,
            out@ + decode(raw@.skip(i as int)) == decode(raw@),
        decreases n - i,
    {
        let ghost t = raw@.skip(i as int);
        assert(t[0] == raw@[i as int]);
        assert(t.drop_first() == raw@.skip(i + 1));
        if raw[i] != '&' {
            out.push(raw[i]);
            i += 1;
            assert(out@ + decode(raw@.skip(i as int)) =~= out@.drop_last() + decode(t));
        } else {
            // The first ';' at most 32 characters on ends the reference.
            let mut j = i + 1;
            while j < n && j - i <= 32 && raw[j] != ';'
                invariant
                    i < j <= n,
                    j - i <= 33,
                    n == raw@.len(),
                    forall|q: int| i + 1 <= q < j ==> raw@[q] != ';',
                decreases n - j,
            {
                j += 1;
            }
            proof {
                lemma_scan_skip(raw@, i as int, 1, Stop::Char(';'));
                lemma_scan(raw@, i + 1, Stop::Char(';'));
            }
            let mut done = false;
            if j < n && j - i <= 32 {
                assert(entity_end(t) == j - i);
                let ent = crate::chars::slice_chars(raw, i + 1, j);
                assert(ent@ == t.subrange(1, (j - i) as int));
                match decode_one_entity(&ent) {
                    Some(d) => {
                        let ghost before = out@;
                        let mut q: usize = 0;
                        while q < d.len()
                            invariant
                                q <= d.len(),
                                out@ == before + d@.take(q as int),
                            decreases d.len() - q,
                        {
                            out.push(d[q]);
                            q += 1;
                            assert(d@.take(q as int) == d@.take(q - 1).push(d@[q - 1]));
                        }
                        assert(d@.take(d.len() as int) == d@);
                        assert(t.skip((j - i) + 1) == raw@.skip(j + 1));
                        i = j + 1;
                        done = true;
                    },
                    None => {},
                }
            } else {
                assert(entity_end(t) == -1);
            }
            if !done {
                out.push('&');
                i += 1;
                assert(out@ + decode(raw@.skip(i as int)) =~= out@.drop_last() + decode(t));
            }
        }
    }
    assert(raw@.skip(n as int).len() == 0);
    assert(out@ + decode(raw@.skip(n as int)) == out@);
    out
}


// --- Executable tree builder ------------------------------------------------------

/// Builds the DOM from the tokenizer's operations, keeping the stack of open
/// elements (outermost first; `stack[0]` is a synthetic document root).
struct TreeBuilder {
    stack: Vec<Node>,
}

impl View for TreeBuilder {
    type V = Seq<DomNode>;

    closed spec fn view(&self) -> Seq<DomNode> {
        nodes_view(self.stack@)
    }
}

proof fn lemma_replace_last(s: Seq<Node>, t: Node)
    requires
        s.len() > 0,
    ensures
        nodes_view(s).len() == s.len(),
        nodes_view(s.drop_last().push(t)) == nodes_view(s).update(s.len() - 1, t@),
        nodes_view(s.drop_last()) == nodes_view(s).drop_last(),
        nodes_view(s).last() == s.last()@,
{
    lemma_nodes_view(s);
    lemma_nodes_view(s.drop_last());
    lemma_nodes_view_push(s.drop_last(), t);
    assert(nodes_view(s.drop_last()) =~= nodes_view(s).drop_last());
    assert(nodes_view(s.drop_last().push(t)) =~= nodes_view(s).update(s.len() - 1, t@));
}

proof fn lemma_apply_ops1(st: Seq<DomNode>, a: HtmlOp)
    ensures
        apply_ops(st, seq![a]) == apply_op(st, a),
{
    assert(seq![a].drop_first() =~= Seq::<HtmlOp>::empty());
    assert(seq![a][0] == a);
    assert(apply_ops(apply_op(st, a), Seq::<HtmlOp>::empty()) == apply_op(st, a));
}

proof fn lemma_apply_ops3(st: Seq<DomNode>, a: HtmlOp, b: HtmlOp, c: HtmlOp)
    ensures
        apply_ops(st, seq![a, b, c]) == apply_op(apply_op(apply_op(st, a), b), c),
{
    assert(seq![a, b, c].drop_first() =~= seq![b, c]);
    assert(seq![b, c].drop_first() =~= seq![c]);
    assert(seq![a, b, c][0] == a);
    assert(seq![b, c][0] == b);
    lemma_apply_ops1(apply_op(apply_op(st, a), b), c);
    assert(apply_ops(st, seq![a, b, c]) == apply_ops(apply_op(st, a), seq![b, c]));
    assert(apply_ops(apply_op(st, a), seq![b, c]) == apply_ops(apply_op(apply_op(st, a), b), seq![c]));
}

impl TreeBuilder {
    spec fn wf(&self) -> bool {
        self.stack@.len() >= 1
    }

    fn new() -> (r: TreeBuilder)
        ensures
            r.wf(),
            r@ == seq![document_root()],
    {
        let mut stack = Vec::new();
        stack.push(dom::elem("#document", AttrMap::new(), Vec::new()));
        let r = TreeBuilder { stack };
        proof {
            lemma_nodes_view(r.stack@);
            assert(nodes_view(Seq::<Node>::empty()) =~= Seq::<DomNode>::empty());
            assert(r@ =~= seq![document_root()]);
        }
        r
    }

    /// Attach a finished node to the current open element.
    fn append(&mut self, node: Node)
        requires
            old(self).wf(),
        ensures
            final(self).wf(),
            final(self).stack@.len() == old(self).stack@.len(),
            final(self)@ == append(old(self)@, node@),
    {
        let ghost st = self.stack@;
        let mut top = self.stack.pop().unwrap();
        let ghost top0 = top;
        assert(top0 == st.last());
        top.children.push(node);
        proof {
            lemma_nodes_view_push(top0.children@, node);
            assert(top@.children == top0@.children.push(node@));
            assert(top@.kind == top0@.kind);
        }
        self.stack.push(top);
        proof {
            lemma_replace_last(st, top);
            assert(nodes_view(st).last() == top0@);
        }
    }

    /// Close the innermost open element, attaching it to its parent.
    fn pop_append(&mut self)
        requires
            old(self).stack@.len() >= 2,
        ensures
            final(self).wf(),
            final(self).stack@.len() == old(self).stack@.len() - 1,
            final(self)@ == pop_append(old(self)@),
    {
        let ghost st = self.stack@;
        let node = self.stack.pop().unwrap();
        proof {
            lemma_replace_last(st, node);
        }
        self.append(node);
    }

    fn open_tag(&mut self, tag: &Vec<char>, attrs: AttrMap, empty: bool)
        requires
            old(self).wf(),
        ensures
            final(self).wf(),
            final(self)@ == open_tag(old(self)@, tag@, attrs@, empty),
    {
        self.apply_implied_end_tags(tag);
        let t = string_of(tag);
        let node = dom::elem(t.as_str(), attrs, Vec::new());
        proof {
            assert(nodes_view(Seq::<Node>::empty()) =~= Seq::<DomNode>::empty());
        }
        if empty || is_void(tag) {
            self.append(node);
        } else {
            let ghost st = self.stack@;
            self.stack.push(node);
            proof {
                lemma_nodes_view_push(st, node);
            }
        }
    }

    /// The index of the innermost open element named `tag`.
    fn last_index_of(&self, tag: &Vec<char>) -> (r: Option<usize>)
        ensures
            match r {
                Some(i) => last_index_of_tag(self@, tag@) == i as int,
                None => last_index_of_tag(self@, tag@) == -1,
            },
    {
        proof {
            lemma_nodes_view(self.stack@);
        }
        let ghost v = self@;
        let mut i = self.stack.len();
        assert(v.take(i as int) == v);
        while i > 0
            invariant
                i <= self.stack@.len(),
                v == self@,
                v.len() == self.stack@.len(),
                forall|j: int| 0 <= j < v.len() ==> #[trigger] v[j] == self.stack@[j]@,
                last_index_of_tag(v, tag@) == last_index_of_tag(v.take(i as int), tag@),
            decreases i,
        {
            let found = match self.stack[i - 1].tag_name() {
                Some(t) => str_eq_chars(t, tag),
                None => false,
            };
            assert(v.take(i as int).last() == v[i - 1]);
            if found {
                return Some(i - 1);
            }
            assert(v.take(i as int).drop_last() == v.take(i - 1));
            i -= 1;
        }
        None
    }

    /// Close open elements until only `idx` of them remain.
    fn pop_to(&mut self, idx: usize)
        requires
            old(self).wf(),
            idx >= 1,
        ensures
            final(self).wf(),
            final(self).stack@.len() <= idx,
            final(self)@ == pop_to(old(self)@, idx as int),
    {
        while self.stack.len() > idx
            invariant
                self.wf(),
                idx >= 1,
                pop_to(self@, idx as int) == pop_to(old(self)@, idx as int),
            decreases self.stack@.len(),
        {
            proof {
                lemma_nodes_view(self.stack@);
            }
            self.pop_append();
        }
        proof {
            lemma_nodes_view(self.stack@);
        }
    }

    fn close_tag(&mut self, tag: &Vec<char>)
        requires
            old(self).wf(),
        ensures
            final(self).wf(),
            final(self)@ == close_tag(old(self)@, tag@),
    {
        match self.last_index_of(tag) {
            Some(idx) => {
                if idx >= 1 {
                    self.pop_to(idx);
                }
            },
            None => {},
        }
    }

    fn text(&mut self, data: Vec<char>)
        requires
            old(self).wf(),
        ensures
            final(self).wf(),
            final(self)@ == apply_op(old(self)@, HtmlOp::Text(data@)),
    {
        if data.len() == 0 {
            return;
        }
        let t = string_of(&data);
        self.append(dom::text(t.as_str()));
    }

    fn comment(&mut self, data: Vec<char>)
        requires
            old(self).wf(),
        ensures
            final(self).wf(),
            final(self)@ == apply_op(old(self)@, HtmlOp::Comment(data@)),
    {
        let t = string_of(&data);
        self.append(dom::comment(t.as_str()));
    }

    /// When a new tag opens, close the open elements it implicitly ends; this
    /// is what makes `<li>a<li>b` and tables without `</td>` parse correctly.
    fn apply_implied_end_tags(&mut self, opening: &Vec<char>)
        requires
            old(self).wf(),
        ensures
            final(self).wf(),
            final(self)@ == close_implied(old(self)@, opening@),
    {
        loop
            invariant
                self.wf(),
                close_implied(self@, opening@) == close_implied(old(self)@, opening@),
            decreases self.stack@.len(),
        {
            proof {
                lemma_nodes_view(self.stack@);
            }
            let n = self.stack.len();
            let close = match self.stack[n - 1].tag_name() {
                Some(current) => should_close(opening, current),
                None => false,
            };
            assert(self@.last() == self.stack@[n - 1]@);
            if close && n > 1 {
                self.pop_append();
            } else {
                return;
            }
        }
    }

    /// Pop everything still open and return the document's root element.
    fn finish(self) -> (r: Node)
        requires
            self.wf(),
        ensures
            r@ == finish(self@),
    {
        let mut b = self;
        b.pop_to(1);
        proof {
            lemma_nodes_view(b.stack@);
        }
        let root = b.stack.pop().unwrap();
        let ghost cs = nodes_view(root.children@);
        assert(finish(self@) == if html_count(cs) == 1 {
            cs[first_html(cs)]
        } else {
            dom_elem("html"@, Seq::empty(), cs)
        });
        let Node { children: mut children, node_type: _ } = root;
        proof {
            lemma_nodes_view(children@);
        }
        let mut count: usize = 0;
        let mut first: usize = children.len();
        let mut i: usize = 0;
        while i < children.len()
            invariant
                i <= children@.len(),
                cs == nodes_view(children@),
                cs.len() == children@.len(),
                forall|j: int| 0 <= j < cs.len() ==> #[trigger] cs[j] == children@[j]@,
                count == html_count(cs.take(i as int)),
                count <= i,
                first <= children@.len(),
                count == 0 ==> first == children@.len() && forall|j: int|
                    0 <= j < i ==> tag_of(#[trigger] cs[j]) != Some("html"@),
                count > 0 ==> first < i && first_html(cs) == first,
            decreases children.len() - i,
        {
            let is_html = match children[i].tag_name() {
                Some(t) => crate::chars::str_eq_chars(t, &chars_of("html")),
                None => false,
            };
            assert(cs.take(i + 1).drop_last() == cs.take(i as int));
            assert(cs.take(i + 1).last() == cs[i as int]);
            if is_html {
                if count == 0 {
                    first = i;
                    proof {
                        lemma_first_html(cs, i as int);
                    }
                }
                count += 1;
            }
            i += 1;
        }
        assert(cs.take(i as int) == cs);
        if count == 1 {
            let r = children.remove(first);
            r
        } else {
            dom::elem("html", AttrMap::new(), children)
        }
    }
}

proof fn lemma_first_html(cs: Seq<DomNode>, k: int)
    requires
        0 <= k < cs.len(),
        tag_of(cs[k]) == Some("html"@),
        forall|j: int| 0 <= j < k ==> tag_of(#[trigger] cs[j]) != Some("html"@),
    ensures
        first_html(cs) == k,
    decreases k,
{
    if k > 0 {
        assert(tag_of(cs[0]) != Some("html"@));
        assert forall|j: int| 0 <= j < k - 1 implies tag_of(
            #[trigger] cs.drop_first()[j],
        ) != Some("html"@) by {
            assert(cs.drop_first()[j] == cs[j + 1]);
        }
        lemma_first_html(cs.drop_first(), k - 1);
    }
}


// --- Executable tokenizer ------------------------------------------------------------

/// Walks the input once, recognising start tags, end tags, text, comments and
/// doctypes, and feeds them to the tree builder.
struct Tokenizer {
    input: Vec<char>,
    pos: usize,
}

impl Tokenizer {
    fn read_tag_name(&self, p: usize) -> (r: (Vec<char>, usize))
        requires
            p <= self.input@.len(),
        ensures
            r.0@ == read_tag_name(self.input@, p as int).0,
            r.1 == read_tag_name(self.input@, p as int).1,
            p <= r.1 <= self.input@.len(),
    {
        let e = scan_to(&self.input, p, Stop::TagNameEnd);
        let raw = crate::chars::slice_chars(&self.input, p, e);
        (lower_chars(&raw), e)
    }

    fn read_attr_value(&self, p: usize) -> (r: (Vec<char>, usize))
        requires
            p <= self.input@.len(),
        ensures
            r.0@ == read_attr_value(self.input@, p as int).0,
            r.1 == read_attr_value(self.input@, p as int).1,
            p <= r.1 <= self.input@.len(),
    {
        let s = &self.input;
        if p < s.len() && (s[p] == '"' || s[p] == '\'') {
            let q = s[p];
            let e = scan_to(s, p + 1, Stop::Char(q));
            let raw = crate::chars::slice_chars(s, p + 1, e);
            let next = if e < s.len() {
                e + 1
            } else {
                e
            };
            (decode_entities(&raw), next)
        } else {
            let e = scan_to(s, p, Stop::UnquotedEnd);
            let raw = crate::chars::slice_chars(s, p, e);
            (decode_entities(&raw), e)
        }
    }

    fn read_attribute(&self, p: usize) -> (r: (Vec<char>, Vec<char>, usize))
        requires
            p <= self.input@.len(),
        ensures
            r.0@ == read_attribute(self.input@, p as int).0,
            r.1@ == read_attribute(self.input@, p as int).1,
            r.2 == read_attribute(self.input@, p as int).2,
            p <= r.2 <= self.input@.len(),
    {
        let s = &self.input;
        let e = scan_to(s, p, Stop::AttrNameEnd);
        let name = lower_chars(&crate::chars::slice_chars(s, p, e));
        let p2 = scan_to(s, e, Stop::NotAsciiWs);
        if p2 < s.len() && s[p2] == '=' {
            let p3 = scan_to(s, p2 + 1, Stop::NotAsciiWs);
            let (v, p4) = self.read_attr_value(p3);
            (name, v, p4)
        } else {
            (name, Vec::new(), p2)
        }
    }

    /// Read attributes until `>` or `/>`. Returns the attributes, whether the
    /// tag was self-closing, and the position after the tag.
    fn read_attributes(&self, p0: usize) -> (r: (AttrMap, bool, usize))
        requires
            p0 <= self.input@.len(),
        ensures
            r.0@ == read_attributes(self.input@, p0 as int, Seq::empty()).0,
            r.1 == read_attributes(self.input@, p0 as int, Seq::empty()).1,
            r.2 == read_attributes(self.input@, p0 as int, Seq::empty()).2,
            p0 <= r.2 <= self.input@.len(),
    {
        let s = &self.input;
        let ghost goal = read_attributes(s@, p0 as int, Seq::empty());
        let mut attrs = AttrMap::new();
        let mut p = p0;
        loop
            invariant
                s@ == self.input@,
                goal == read_attributes(s@, p0 as int, Seq::empty()),
                p0 <= p <= s@.len(),
                read_attributes(s@, p as int, attrs@) == goal,
            decreases s@.len() - p,
        {
            let p1 = scan_to(s, p, Stop::NotAsciiWs);
            proof {
                lemma_scan(s@, p as int, Stop::NotAsciiWs);
            }
            if p1 >= s.len() {
                return (attrs, false, p1);
            } else if s[p1] == '>' {
                return (attrs, false, p1 + 1);
            } else if s[p1] == '/' {
                if p1 + 1 < s.len() && s[p1 + 1] == '>' {
                    return (attrs, true, p1 + 2);
                }
                p = p1 + 1;
            } else {
                let (name, value, p2) = self.read_attribute(p1);
                proof {
                    lemma_read_attribute(s@, p1 as int);
                }
                if name.len() > 0 {
                    attrs.insert_if_absent(name, string_of(&value));
                }
                p = p2;
            }
        }
    }

    /// Read the verbatim body of a raw-text element up to its closing tag;
    /// returns the body and the position after the closing tag.
    fn consume_raw_text(&self, p: usize, tag: &Vec<char>) -> (r: (Vec<char>, usize))
        requires
            p <= self.input@.len(),
        ensures
            r.0@ == raw_text(self.input@, p as int, tag@).0,
            r.1 == raw_text(self.input@, p as int, tag@).1,
            p <= r.1 <= self.input@.len(),
    {
        let s = &self.input;
        let mut close = vec2('<', '/');
        let mut k: usize = 0;
        while k < tag.len()
            invariant
                k <= tag@.len(),
                close@ == seq!['<', '/'] + tag@.take(k as int),
            decreases tag.len() - k,
        {
            close.push(tag[k]);
            k += 1;
            assert(tag@.take(k as int) == tag@.take(k - 1).push(tag@[k - 1]));
        }
        assert(tag@.take(tag@.len() as int) == tag@);
        let e = find_chars_ci(s, p, &close);
        let raw = crate::chars::slice_chars(s, p, e);
        let text = if str_eq_chars("title", tag) || str_eq_chars("textarea", tag) {
            decode_entities(&raw)
        } else {
            raw
        };
        let next = if crate::chars::chars_at_ci(s, e, &close) {
            skip_past_char(s, e + close.len(), '>')
        } else {
            e
        };
        (text, next)
    }

    fn parse_start_tag(&mut self, b: &mut TreeBuilder)
        requires
            old(b).wf(),
            old(self).pos + 1 < old(self).input.len(),
        ensures
            final(self).input@ == old(self).input@,
            final(b).wf(),
            final(b)@ == apply_ops(old(b)@, start_tag(old(self).input@, old(self).pos as int).0),
            final(self).pos == start_tag(old(self).input@, old(self).pos as int).1,
    {
        let ghost s = self.input@;
        let (tag, p2) = self.read_tag_name(self.pos + 1);
        let (attrs, self_closing, p3) = self.read_attributes(p2);
        let ghost a = attrs@;
        if self_closing || is_void(&tag) {
            b.open_tag(&tag, attrs, true);
            self.pos = p3;
            proof {
                lemma_apply_ops1(old(b)@, HtmlOp::Empty(tag@, a));
            }
        } else if is_raw_text(&tag) {
            b.open_tag(&tag, attrs, false);
            let (text, p4) = self.consume_raw_text(p3, &tag);
            b.text(text);
            b.close_tag(&tag);
            self.pos = p4;
            proof {
                lemma_apply_ops3(
                    old(b)@,
                    HtmlOp::Open(tag@, a),
                    HtmlOp::Text(raw_text(s, p3 as int, tag@).0),
                    HtmlOp::Close(tag@),
                );
            }
        } else {
            b.open_tag(&tag, attrs, false);
            self.pos = p3;
            proof {
                lemma_apply_ops1(old(b)@, HtmlOp::Open(tag@, a));
            }
        }
    }

    /// One step of the tokenizer.
    fn step(&mut self, b: &mut TreeBuilder)
        requires
            old(b).wf(),
            old(self).pos < old(self).input@.len(),
        ensures
            final(self).input@ == old(self).input@,
            final(b).wf(),
            final(b)@ == apply_ops(old(b)@, step(old(self).input@, old(self).pos as int).0),
            final(self).pos == step(old(self).input@, old(self).pos as int).1,
    {
        let ghost s = self.input@;
        let pos = self.pos;
        let n = self.input.len();
        if chars_at(&self.input, pos, &vec4('<', '!', '-', '-')) {
            // A comment runs to the next "-->".
            let end_pat = crate::chars::vec3('-', '-', '>');
            let e = find_chars(&self.input, pos + 4, &end_pat);
            let data = crate::chars::slice_chars(&self.input, pos + 4, e);
            let ghost d = data@;
            b.comment(data);
            self.pos = if chars_at(&self.input, e, &end_pat) {
                e + 3
            } else {
                e
            };
            proof {
                lemma_apply_ops1(old(b)@, HtmlOp::Comment(d));
            }
        } else if chars_at(&self.input, pos, &vec2('<', '!')) || chars_at(
            &self.input,
            pos,
            &vec2('<', '?'),
        ) {
            // A doctype or processing instruction: skip to the next '>'.
            self.pos = skip_past_char(&self.input, pos, '>');
            proof {
                assert(apply_ops(old(b)@, Seq::<HtmlOp>::empty()) == old(b)@);
            }
        } else if chars_at(&self.input, pos, &vec2('<', '/')) {
            let (tag, p2) = self.read_tag_name(pos + 2);
            self.pos = skip_past_char(&self.input, p2, '>');
            b.close_tag(&tag);
            proof {
                lemma_apply_ops1(old(b)@, HtmlOp::Close(tag@));
            }
        } else if self.input[pos] == '<' && pos + 1 < self.input.len() && ascii_alpha(
            self.input[pos + 1],
        ) {
            self.parse_start_tag(b);
        } else {
            // Text up to the next '<'; a lone '<' that begins no tag is text.
            let e = scan_to(&self.input, pos, Stop::Char('<'));
            let e2 = if e == pos {
                pos + 1
            } else {
                e
            };
            let raw = crate::chars::slice_chars(&self.input, pos, e2);
            let d = decode_entities(&raw);
            let ghost dv = d@;
            b.text(d);
            self.pos = e2;
            proof {
                lemma_apply_ops1(old(b)@, HtmlOp::Text(dv));
            }
        }
    }

    fn run(&mut self, b: &mut TreeBuilder)
        requires
            old(b).wf(),
            old(self).pos <= old(self).input@.len(),
        ensures
            final(b).wf(),
            final(b)@ == run(old(self).input@, old(b)@, old(self).pos as int),
    {
        let ghost s = self.input@;
        let ghost goal = run(s, old(b)@, old(self).pos as int);
        while self.pos < self.input.len()
            invariant
                self.input@ == s,
                goal == run(s, old(b)@, old(self).pos as int),
                self.pos <= s.len(),
                b.wf(),
                run(s, b@, self.pos as int) == goal,
            decreases s.len() - self.pos,
        {
            proof {
                lemma_step(s, self.pos as int);
            }
            self.step(b);
        }
    }
}

/// Parse a full HTML document into a single root [`Node`]: the `<html>`
/// element, real or synthesized, so the rest of the pipeline always has one
/// tree to walk.
pub fn parse(source: &str) -> (r: Node)
    ensures
        r@ == parse_html(source@),
{
    let mut builder = TreeBuilder::new();
    let mut tokenizer = Tokenizer { input: chars_of(source), pos: 0 };
    tokenizer.run(&mut builder);
    builder.finish()
}


// --- Laws of the parser --------------------------------------------------------------

/// Whether `n` is an element with a void tag.
pub open spec fn is_void_element(n: DomNode) -> bool {
    match tag_of(n) {
        Some(t) => is_void_tag(t),
        None => false,
    }
}

/// No void element in `n` or below it has children.
pub open spec fn voids_childless(n: DomNode) -> bool
    decreases n,
{
    &&& (is_void_element(n) ==> n.children.len() == 0)
    &&& forall|i: int| 0 <= i < n.children.len() ==> voids_childless(#[trigger] n.children[i])
}

/// The tree builder's stack of open elements: never empty, no void element
/// open, and no void element anywhere below with children.
pub open spec fn open_stack_ok(st: Seq<DomNode>) -> bool {
    &&& st.len() >= 1
    &&& forall|i: int| 0 <= i < st.len() ==> voids_childless(#[trigger] st[i]) && !is_void_element(st[i])
}

proof fn lemma_append_ok(st: Seq<DomNode>, n: DomNode)
    requires
        open_stack_ok(st),
        voids_childless(n),
    ensures
        open_stack_ok(append(st, n)),
{
    let l = st.last();
    let m = DomNode { children: l.children.push(n), kind: l.kind };
    assert(voids_childless(l));
    assert forall|i: int| 0 <= i < m.children.len() implies voids_childless(#[trigger] m.children[i]) by {
        if i < l.children.len() {
            assert(m.children[i] == l.children[i]);
        }
    }
    assert(tag_of(m) == tag_of(l));
    assert(voids_childless(m));
    let r = append(st, n);
    assert forall|i: int| 0 <= i < r.len() implies voids_childless(#[trigger] r[i]) && !is_void_element(r[i]) by {
        if i < st.len() - 1 {
            assert(r[i] == st[i]);
        } else {
            assert(r[i] == m);
        }
    }
}

proof fn lemma_pop_append_ok(st: Seq<DomNode>)
    requires
        open_stack_ok(st),
        st.len() >= 2,
    ensures
        open_stack_ok(pop_append(st)),
{
    let d = st.drop_last();
    assert forall|i: int| 0 <= i < d.len() implies voids_childless(#[trigger] d[i]) && !is_void_element(d[i]) by {
        assert(d[i] == st[i]);
    }
    assert(voids_childless(st[st.len() - 1]));
    lemma_append_ok(d, st.last());
}

proof fn lemma_close_implied_ok(st: Seq<DomNode>, opening: Seq<char>)
    requires
        open_stack_ok(st),
    ensures
        open_stack_ok(close_implied(st, opening)),
    decreases st.len(),
{
    if st.len() > 1 && tag_of(st.last()) is Some && implied_close(opening, tag_of(st.last()).unwrap()) {
        lemma_pop_append_ok(st);
        lemma_close_implied_ok(pop_append(st), opening);
    }
}

proof fn lemma_pop_to_ok(st: Seq<DomNode>, idx: int)
    requires
        open_stack_ok(st),
    ensures
        open_stack_ok(pop_to(st, idx)),
    decreases st.len(),
{
    if idx >= 1 && st.len() > idx {
        lemma_pop_append_ok(st);
        lemma_pop_to_ok(pop_append(st), idx);
    }
}

proof fn lemma_apply_op_ok(st: Seq<DomNode>, op: HtmlOp)
    requires
        open_stack_ok(st),
    ensures
        open_stack_ok(apply_op(st, op)),
{
    match op {
        HtmlOp::Empty(tag, attrs) => {
            lemma_close_implied_ok(st, tag);
            let st1 = close_implied(st, tag);
            let node = dom_elem(tag, attrs, Seq::empty());
            assert(voids_childless(node));
            lemma_append_ok(st1, node);
        },
        HtmlOp::Open(tag, attrs) => {
            lemma_close_implied_ok(st, tag);
            let st1 = close_implied(st, tag);
            let node = dom_elem(tag, attrs, Seq::empty());
            assert(voids_childless(node));
            if is_void_tag(tag) {
                lemma_append_ok(st1, node);
            } else {
                let r = st1.push(node);
                assert forall|i: int| 0 <= i < r.len() implies voids_childless(#[trigger] r[i]) && !is_void_element(r[i]) by {
                    if i < st1.len() {
                        assert(r[i] == st1[i]);
                    }
                }
            }
        },
        HtmlOp::Close(tag) => {
            lemma_pop_to_ok(st, last_index_of_tag(st, tag));
        },
        HtmlOp::Text(d) => {
            assert(voids_childless(dom_text(d)));
            if d.len() > 0 {
                lemma_append_ok(st, dom_text(d));
            }
        },
        HtmlOp::Comment(d) => {
            assert(voids_childless(dom_comment(d)));
            lemma_append_ok(st, dom_comment(d));
        },
    }
}

proof fn lemma_apply_ops_ok(st: Seq<DomNode>, ops: Seq<HtmlOp>)
    requires
        open_stack_ok(st),
    ensures
        open_stack_ok(apply_ops(st, ops)),
    decreases ops.len(),
{
    if ops.len() > 0 {
        lemma_apply_op_ok(st, ops[0]);
        lemma_apply_ops_ok(apply_op(st, ops[0]), ops.drop_first());
    }
}

proof fn lemma_run_ok(s: Seq<char>, st: Seq<DomNode>, pos: int)
    requires
        open_stack_ok(st),
    ensures
        open_stack_ok(run(s, st, pos)),
    decreases s.len() - pos,
{
    if 0 <= pos < s.len() {
        lemma_step(s, pos);
        lemma_apply_ops_ok(st, step(s, pos).0);
        lemma_run_ok(s, apply_ops(st, step(s, pos).0), step(s, pos).1);
    }
}

proof fn lemma_html_count_first(cs: Seq<DomNode>)
    requires
        html_count(cs) > 0,
    ensures
        0 <= first_html(cs) < cs.len(),
        tag_of(cs[first_html(cs)]) == Some("html"@),
    decreases cs.len(),
{
    if tag_of(cs[0]) != Some("html"@) {
        assert(html_count(cs.drop_first()) > 0) by {
            lemma_html_count_drop_first(cs);
        }
        lemma_html_count_first(cs.drop_first());
        assert(cs.drop_first()[first_html(cs.drop_first())] == cs[first_html(cs)]);
    }
}

proof fn lemma_html_count_drop_first(cs: Seq<DomNode>)
    requires
        cs.len() > 0,
    ensures
        html_count(cs) == html_count(cs.drop_first()) + if tag_of(cs[0]) == Some("html"@) {
            1nat
        } else {
            0nat
        },
    decreases cs.len(),
{
    let f0: nat = if tag_of(cs[0]) == Some("html"@) { 1nat } else { 0nat };
    let fl: nat = if tag_of(cs.last()) == Some("html"@) { 1nat } else { 0nat };
    assert(html_count(cs) == html_count(cs.drop_last()) + fl);
    if cs.len() > 1 {
        lemma_html_count_drop_first(cs.drop_last());
        assert(cs.drop_last().drop_first() == cs.drop_first().drop_last());
        assert(cs.drop_last()[0] == cs[0]);
        assert(cs.drop_first().last() == cs.last());
        assert(html_count(cs.drop_last()) == html_count(cs.drop_last().drop_first()) + f0);
        assert(html_count(cs.drop_first()) == html_count(cs.drop_first().drop_last()) + fl);
    } else {
        assert(cs.drop_first().len() == 0);
        assert(cs.drop_last().len() == 0);
        assert(html_count(cs.drop_first()) == 0);
        assert(html_count(cs.drop_last()) == 0);
        assert(cs.last() == cs[0]);
    }
}

proof fn lemma_void_tag_shape(t: Seq<char>)
    requires
        is_void_tag(t),
    ensures
        t.len() > 0,
        t[0] != '#',
        t[0] == 'h' ==> t.len() == 2,
{
    reveal_strlit("area");
    reveal_strlit("base");
    reveal_strlit("br");
    reveal_strlit("col");
    reveal_strlit("embed");
    reveal_strlit("hr");
    reveal_strlit("img");
    reveal_strlit("input");
    reveal_strlit("link");
    reveal_strlit("meta");
    reveal_strlit("param");
    reveal_strlit("source");
    reveal_strlit("track");
    reveal_strlit("wbr");
    reveal_strlit("path");
    reveal_strlit("circle");
}

proof fn reveal_void_tags()
    ensures
        !is_void_tag("#document"@),
        !is_void_tag("html"@),
{
    reveal_strlit("#document");
    reveal_strlit("html");
    if is_void_tag("#document"@) {
        lemma_void_tag_shape("#document"@);
    }
    if is_void_tag("html"@) {
        lemma_void_tag_shape("html"@);
    }
}

proof fn lemma_html_count_front(cs: Seq<DomNode>)
    requires
        cs.len() > 0,
    ensures
        html_count(cs) == html_count(cs.drop_first()) + if tag_of(cs[0]) == Some("html"@) {
            1nat
        } else {
            0nat
        },
    decreases cs.len(),
{
    if cs.len() > 1 {
        let dl = cs.drop_last();
        let df = cs.drop_first();
        lemma_html_count_front(dl);
        assert(dl.drop_first() =~= df.drop_last());
        assert(df.last() == cs.last());
        assert(dl[0] == cs[0]);
        assert(html_count(df) == html_count(df.drop_last()) + if tag_of(df.last()) == Some("html"@) {
            1nat
        } else {
            0nat
        });
        assert(html_count(cs) == html_count(dl) + if tag_of(cs.last()) == Some("html"@) {
            1nat
        } else {
            0nat
        });
    } else {
        assert(cs.drop_first().len() == 0);
        assert(cs.drop_last().len() == 0);
        assert(html_count(cs.drop_first()) == 0);
        assert(html_count(cs.drop_last()) == 0);
        assert(cs.last() == cs[0]);
    }
}

proof fn lemma_html_count_pos(cs: Seq<DomNode>, j: int)
    requires
        0 <= j < cs.len(),
        tag_of(cs[j]) == Some("html"@),
    ensures
        html_count(cs) >= 1,
    decreases cs.len(),
{
    if j < cs.len() - 1 {
        assert(cs.drop_last()[j] == cs[j]);
        lemma_html_count_pos(cs.drop_last(), j);
    }
}

proof fn lemma_html_unique(cs: Seq<DomNode>, j: int)
    requires
        html_count(cs) == 1,
        0 <= j < cs.len(),
        tag_of(cs[j]) == Some("html"@),
    ensures
        j == first_html(cs),
    decreases cs.len(),
{
    lemma_html_count_front(cs);
    if tag_of(cs[0]) == Some("html"@) {
        if j > 0 {
            assert(cs.drop_first()[j - 1] == cs[j]);
            lemma_html_count_pos(cs.drop_first(), j - 1);
        }
    } else {
        assert(cs.drop_first()[j - 1] == cs[j]);
        lemma_html_unique(cs.drop_first(), j - 1);
    }
}

/// The parsed document is always a single `<html>` element. When the top
/// level of the source holds exactly one `<html>` element, it is that element,
/// attributes and children kept; otherwise it is a synthesized `<html>` with no
/// attributes whose children are all the top-level nodes, in source order.
pub proof fn parsed_root_is_html(s: Seq<char>)
    ensures
        tag_of(parse_html(s)) == Some("html"@),
        html_count(top_level_nodes(s)) == 1 ==> {
            let top = top_level_nodes(s);
            &&& 0 <= first_html(top) < top.len()
            &&& parse_html(s) == top[first_html(top)]
            &&& forall|j: int| 0 <= j < top.len() && tag_of(#[trigger] top[j]) == Some("html"@) ==> j == first_html(top)
        },
        html_count(top_level_nodes(s)) != 1 ==> parse_html(s) == dom_elem(
            "html"@,
            Seq::empty(),
            top_level_nodes(s),
        ),
{
    let top = top_level_nodes(s);
    if html_count(top) == 1 {
        lemma_html_count_first(top);
        assert forall|j: int| 0 <= j < top.len() && tag_of(#[trigger] top[j]) == Some("html"@) implies j == first_html(top) by {
            lemma_html_unique(top, j);
        }
    }
}

proof fn lemma_differ_at(a: Seq<char>, b: Seq<char>, i: int)
    requires
        0 <= i < a.len(),
        i < b.len(),
        a[i] != b[i],
    ensures
        a != b,
{
}

proof fn lemma_close_implied_len(st: Seq<DomNode>, opening: Seq<char>)
    ensures
        close_implied(st, opening).len() <= st.len(),
        st.len() >= 1 ==> close_implied(st, opening).len() >= 1,
    decreases st.len(),
{
    if st.len() > 1 && tag_of(st.last()) is Some && implied_close(opening, tag_of(st.last()).unwrap()) {
        assert(pop_append(st).len() == st.len() - 1);
        lemma_close_implied_len(pop_append(st), opening);
    }
}

/// Implied end tags: opening an element closes the open element that it
/// cannot sit inside. A `<li>` closes an open `<li>`; a `<dt>` or `<dd>` an open
/// `<dt>` or `<dd>`; an `<option>` an open `<option>`; a `<tr>` an open row or
/// cell; a `<td>` or `<th>` an open cell; a `<thead>`, `<tbody>` or `<tfoot>` an
/// open cell, row or table section; and a block (`<div>`, `<ul>`, `<table>`, a
/// heading, `<hr>`, ...) an open `<p>`. The new element then is the closed
/// one's sibling, never its child: the stack of open elements does not grow,
/// and unless the new element is void it is the innermost open element.
pub proof fn opening_closes_implied_element(
    st: Seq<DomNode>,
    tag: Seq<char>,
    attrs: Seq<(Seq<char>, Seq<char>)>,
)
    requires
        st.len() > 1,
        tag_of(st.last()) is Some,
        ({
            let cur = tag_of(st.last()).unwrap();
            ((tag == "li"@) && (cur == "li"@))
            || ((tag == "dt"@ || tag == "dd"@) && (cur == "dt"@ || cur == "dd"@))
            || ((tag == "option"@) && (cur == "option"@))
            || ((tag == "tr"@) && (cur == "tr"@ || cur == "td"@ || cur == "th"@))
            || ((tag == "td"@ || tag == "th"@) && (cur == "td"@ || cur == "th"@))
            || ((tag == "thead"@ || tag == "tbody"@ || tag == "tfoot"@) && (cur == "td"@ || cur == "th"@ || cur == "tr"@ || cur == "thead"@ || cur == "tbody"@ || cur == "tfoot"@))
            || ((tag == "p"@ || tag == "div"@ || tag == "ul"@ || tag == "ol"@ || tag == "table"@ || tag == "blockquote"@ || tag == "pre"@ || tag == "section"@ || tag == "article"@ || tag == "header"@ || tag == "footer"@ || tag == "nav"@ || tag == "aside"@ || tag == "form"@ || tag == "hr"@ || tag == "h1"@ || tag == "h2"@ || tag == "h3"@ || tag == "h4"@ || tag == "h5"@ || tag == "h6"@) && (cur == "p"@))
        }),
    ensures
        open_tag(st, tag, attrs, false).len() <= st.len(),
        !is_void_tag(tag) ==> open_tag(st, tag, attrs, false).last() == dom_elem(tag, attrs, Seq::empty()),
{
    reveal_strlit("li");
    reveal_strlit("dt");
    reveal_strlit("dd");
    reveal_strlit("option");
    reveal_strlit("tr");
    reveal_strlit("td");
    reveal_strlit("th");
    reveal_strlit("thead");
    reveal_strlit("tbody");
    reveal_strlit("tfoot");
    reveal_strlit("p");
    reveal_strlit("div");
    reveal_strlit("ul");
    reveal_strlit("ol");
    reveal_strlit("table");
    reveal_strlit("blockquote");
    reveal_strlit("pre");
    reveal_strlit("section");
    reveal_strlit("article");
    reveal_strlit("header");
    reveal_strlit("footer");
    reveal_strlit("nav");
    reveal_strlit("aside");
    reveal_strlit("form");
    reveal_strlit("hr");
    reveal_strlit("h1");
    reveal_strlit("h2");
    reveal_strlit("h3");
    reveal_strlit("h4");
    reveal_strlit("h5");
    reveal_strlit("h6");
    reveal_strlit("area");
    reveal_strlit("base");
    reveal_strlit("br");
    reveal_strlit("col");
    reveal_strlit("embed");
    reveal_strlit("img");
    reveal_strlit("input");
    reveal_strlit("link");
    reveal_strlit("meta");
    reveal_strlit("param");
    reveal_strlit("source");
    reveal_strlit("track");
    reveal_strlit("wbr");
    reveal_strlit("path");
    reveal_strlit("circle");
    assert("li"@.len() == 2);
    assert("dt"@.len() == 2);
    assert("dd"@.len() == 2);
    assert("option"@.len() == 6);
    assert("tr"@.len() == 2);
    assert("td"@.len() == 2);
    assert("th"@.len() == 2);
    assert("thead"@.len() == 5);
    assert("tbody"@.len() == 5);
    assert("tfoot"@.len() == 5);
    assert("p"@.len() == 1);
    assert("div"@.len() == 3);
    assert("ul"@.len() == 2);
    assert("ol"@.len() == 2);
    assert("table"@.len() == 5);
    assert("blockquote"@.len() == 10);
    assert("pre"@.len() == 3);
    assert("section"@.len() == 7);
    assert("article"@.len() == 7);
    assert("header"@.len() == 6);
    assert("footer"@.len() == 6);
    assert("nav"@.len() == 3);
    assert("aside"@.len() == 5);
    assert("form"@.len() == 4);
    assert("hr"@.len() == 2);
    assert("h1"@.len() == 2);
    assert("h2"@.len() == 2);
    assert("h3"@.len() == 2);
    assert("h4"@.len() == 2);
    assert("h5"@.len() == 2);
    assert("h6"@.len() == 2);
    assert("area"@.len() == 4);
    assert("base"@.len() == 4);
    assert("br"@.len() == 2);
    assert("col"@.len() == 3);
    assert("embed"@.len() == 5);
    assert("img"@.len() == 3);
    assert("input"@.len() == 5);
    assert("link"@.len() == 4);
    assert("meta"@.len() == 4);
    assert("param"@.len() == 5);
    assert("source"@.len() == 6);
    assert("track"@.len() == 5);
    assert("wbr"@.len() == 3);
    assert("path"@.len() == 4);
    assert("circle"@.len() == 6);
    lemma_differ_at("dt"@, "li"@, 0);
    lemma_differ_at("dd"@, "li"@, 0);
    lemma_differ_at("dd"@, "dt"@, 1);
    lemma_differ_at("tr"@, "li"@, 0);
    lemma_differ_at("tr"@, "dt"@, 0);
    lemma_differ_at("tr"@, "dd"@, 0);
    lemma_differ_at("td"@, "li"@, 0);
    lemma_differ_at("td"@, "dt"@, 0);
    lemma_differ_at("td"@, "dd"@, 0);
    lemma_differ_at("td"@, "tr"@, 1);
    lemma_differ_at("th"@, "li"@, 0);
    lemma_differ_at("th"@, "dt"@, 0);
    lemma_differ_at("th"@, "dd"@, 0);
    lemma_differ_at("th"@, "tr"@, 1);
    lemma_differ_at("th"@, "td"@, 1);
    lemma_differ_at("tbody"@, "thead"@, 1);
    lemma_differ_at("tfoot"@, "thead"@, 1);
    lemma_differ_at("tfoot"@, "tbody"@, 1);
    lemma_differ_at("ul"@, "li"@, 0);
    lemma_differ_at("ul"@, "dt"@, 0);
    lemma_differ_at("ul"@, "dd"@, 0);
    lemma_differ_at("ul"@, "tr"@, 0);
    lemma_differ_at("ul"@, "td"@, 0);
    lemma_differ_at("ul"@, "th"@, 0);
    lemma_differ_at("ol"@, "li"@, 0);
    lemma_differ_at("ol"@, "dt"@, 0);
    lemma_differ_at("ol"@, "dd"@, 0);
    lemma_differ_at("ol"@, "tr"@, 0);
    lemma_differ_at("ol"@, "td"@, 0);
    lemma_differ_at("ol"@, "th"@, 0);
    lemma_differ_at("ol"@, "ul"@, 0);
    lemma_differ_at("table"@, "thead"@, 1);
    lemma_differ_at("table"@, "tbody"@, 1);
    lemma_differ_at("table"@, "tfoot"@, 1);
    lemma_differ_at("pre"@, "div"@, 0);
    lemma_differ_at("article"@, "section"@, 0);
    lemma_differ_at("header"@, "option"@, 0);
    lemma_differ_at("footer"@, "option"@, 0);
    lemma_differ_at("footer"@, "header"@, 0);
    lemma_differ_at("nav"@, "div"@, 0);
    lemma_differ_at("nav"@, "pre"@, 0);
    lemma_differ_at("aside"@, "thead"@, 0);
    lemma_differ_at("aside"@, "tbody"@, 0);
    lemma_differ_at("aside"@, "tfoot"@, 0);
    lemma_differ_at("aside"@, "table"@, 0);
    lemma_differ_at("hr"@, "li"@, 0);
    lemma_differ_at("hr"@, "dt"@, 0);
    lemma_differ_at("hr"@, "dd"@, 0);
    lemma_differ_at("hr"@, "tr"@, 0);
    lemma_differ_at("hr"@, "td"@, 0);
    lemma_differ_at("hr"@, "th"@, 0);
    lemma_differ_at("hr"@, "ul"@, 0);
    lemma_differ_at("hr"@, "ol"@, 0);
    lemma_differ_at("h1"@, "li"@, 0);
    lemma_differ_at("h1"@, "dt"@, 0);
    lemma_differ_at("h1"@, "dd"@, 0);
    lemma_differ_at("h1"@, "tr"@, 0);
    lemma_differ_at("h1"@, "td"@, 0);
    lemma_differ_at("h1"@, "th"@, 0);
    lemma_differ_at("h1"@, "ul"@, 0);
    lemma_differ_at("h1"@, "ol"@, 0);
    lemma_differ_at("h1"@, "hr"@, 1);
    lemma_differ_at("h2"@, "li"@, 0);
    lemma_differ_at("h2"@, "dt"@, 0);
    lemma_differ_at("h2"@, "dd"@, 0);
    lemma_differ_at("h2"@, "tr"@, 0);
    lemma_differ_at("h2"@, "td"@, 0);
    lemma_differ_at("h2"@, "th"@, 0);
    lemma_differ_at("h2"@, "ul"@, 0);
    lemma_differ_at("h2"@, "ol"@, 0);
    lemma_differ_at("h2"@, "hr"@, 1);
    lemma_differ_at("h2"@, "h1"@, 1);
    lemma_differ_at("h3"@, "li"@, 0);
    lemma_differ_at("h3"@, "dt"@, 0);
    lemma_differ_at("h3"@, "dd"@, 0);
    lemma_differ_at("h3"@, "tr"@, 0);
    lemma_differ_at("h3"@, "td"@, 0);
    lemma_differ_at("h3"@, "th"@, 0);
    lemma_differ_at("h3"@, "ul"@, 0);
    lemma_differ_at("h3"@, "ol"@, 0);
    lemma_differ_at("h3"@, "hr"@, 1);
    lemma_differ_at("h3"@, "h1"@, 1);
    lemma_differ_at("h3"@, "h2"@, 1);
    lemma_differ_at("h4"@, "li"@, 0);
    lemma_differ_at("h4"@, "dt"@, 0);
    lemma_differ_at("h4"@, "dd"@, 0);
    lemma_differ_at("h4"@, "tr"@, 0);
    lemma_differ_at("h4"@, "td"@, 0);
    lemma_differ_at("h4"@, "th"@, 0);
    lemma_differ_at("h4"@, "ul"@, 0);
    lemma_differ_at("h4"@, "ol"@, 0);
    lemma_differ_at("h4"@, "hr"@, 1);
    lemma_differ_at("h4"@, "h1"@, 1);
    lemma_differ_at("h4"@, "h2"@, 1);
    lemma_differ_at("h4"@, "h3"@, 1);
    lemma_differ_at("h5"@, "li"@, 0);
    lemma_differ_at("h5"@, "dt"@, 0);
    lemma_differ_at("h5"@, "dd"@, 0);
    lemma_differ_at("h5"@, "tr"@, 0);
    lemma_differ_at("h5"@, "td"@, 0);
    lemma_differ_at("h5"@, "th"@, 0);
    lemma_differ_at("h5"@, "ul"@, 0);
    lemma_differ_at("h5"@, "ol"@, 0);
    lemma_differ_at("h5"@, "hr"@, 1);
    lemma_differ_at("h5"@, "h1"@, 1);
    lemma_differ_at("h5"@, "h2"@, 1);
    lemma_differ_at("h5"@, "h3"@, 1);
    lemma_differ_at("h5"@, "h4"@, 1);
    lemma_differ_at("h6"@, "li"@, 0);
    lemma_differ_at("h6"@, "dt"@, 0);
    lemma_differ_at("h6"@, "dd"@, 0);
    lemma_differ_at("h6"@, "tr"@, 0);
    lemma_differ_at("h6"@, "td"@, 0);
    lemma_differ_at("h6"@, "th"@, 0);
    lemma_differ_at("h6"@, "ul"@, 0);
    lemma_differ_at("h6"@, "ol"@, 0);
    lemma_differ_at("h6"@, "hr"@, 1);
    lemma_differ_at("h6"@, "h1"@, 1);
    lemma_differ_at("h6"@, "h2"@, 1);
    lemma_differ_at("h6"@, "h3"@, 1);
    lemma_differ_at("h6"@, "h4"@, 1);
    lemma_differ_at("h6"@, "h5"@, 1);
    lemma_differ_at("area"@, "form"@, 0);
    lemma_differ_at("base"@, "form"@, 0);
    lemma_differ_at("base"@, "area"@, 0);
    lemma_differ_at("br"@, "li"@, 0);
    lemma_differ_at("br"@, "dt"@, 0);
    lemma_differ_at("br"@, "dd"@, 0);
    lemma_differ_at("br"@, "tr"@, 0);
    lemma_differ_at("br"@, "td"@, 0);
    lemma_differ_at("br"@, "th"@, 0);
    lemma_differ_at("br"@, "ul"@, 0);
    lemma_differ_at("br"@, "ol"@, 0);
    lemma_differ_at("br"@, "hr"@, 0);
    lemma_differ_at("br"@, "h1"@, 0);
    lemma_differ_at("br"@, "h2"@, 0);
    lemma_differ_at("br"@, "h3"@, 0);
    lemma_differ_at("br"@, "h4"@, 0);
    lemma_differ_at("br"@, "h5"@, 0);
    lemma_differ_at("br"@, "h6"@, 0);
    lemma_differ_at("col"@, "div"@, 0);
    lemma_differ_at("col"@, "pre"@, 0);
    lemma_differ_at("col"@, "nav"@, 0);
    lemma_differ_at("embed"@, "thead"@, 0);
    lemma_differ_at("embed"@, "tbody"@, 0);
    lemma_differ_at("embed"@, "tfoot"@, 0);
    lemma_differ_at("embed"@, "table"@, 0);
    lemma_differ_at("embed"@, "aside"@, 0);
    lemma_differ_at("img"@, "div"@, 0);
    lemma_differ_at("img"@, "pre"@, 0);
    lemma_differ_at("img"@, "nav"@, 0);
    lemma_differ_at("img"@, "col"@, 0);
    lemma_differ_at("input"@, "thead"@, 0);
    lemma_differ_at("input"@, "tbody"@, 0);
    lemma_differ_at("input"@, "tfoot"@, 0);
    lemma_differ_at("input"@, "table"@, 0);
    lemma_differ_at("input"@, "aside"@, 0);
    lemma_differ_at("input"@, "embed"@, 0);
    lemma_differ_at("link"@, "form"@, 0);
    lemma_differ_at("link"@, "area"@, 0);
    lemma_differ_at("link"@, "base"@, 0);
    lemma_differ_at("meta"@, "form"@, 0);
    lemma_differ_at("meta"@, "area"@, 0);
    lemma_differ_at("meta"@, "base"@, 0);
    lemma_differ_at("meta"@, "link"@, 0);
    lemma_differ_at("param"@, "thead"@, 0);
    lemma_differ_at("param"@, "tbody"@, 0);
    lemma_differ_at("param"@, "tfoot"@, 0);
    lemma_differ_at("param"@, "table"@, 0);
    lemma_differ_at("param"@, "aside"@, 0);
    lemma_differ_at("param"@, "embed"@, 0);
    lemma_differ_at("param"@, "input"@, 0);
    lemma_differ_at("source"@, "option"@, 0);
    lemma_differ_at("source"@, "header"@, 0);
    lemma_differ_at("source"@, "footer"@, 0);
    lemma_differ_at("track"@, "thead"@, 1);
    lemma_differ_at("track"@, "tbody"@, 1);
    lemma_differ_at("track"@, "tfoot"@, 1);
    lemma_differ_at("track"@, "table"@, 1);
    lemma_differ_at("track"@, "aside"@, 0);
    lemma_differ_at("track"@, "embed"@, 0);
    lemma_differ_at("track"@, "input"@, 0);
    lemma_differ_at("track"@, "param"@, 0);
    lemma_differ_at("wbr"@, "div"@, 0);
    lemma_differ_at("wbr"@, "pre"@, 0);
    lemma_differ_at("wbr"@, "nav"@, 0);
    lemma_differ_at("wbr"@, "col"@, 0);
    lemma_differ_at("wbr"@, "img"@, 0);
    lemma_differ_at("path"@, "form"@, 0);
    lemma_differ_at("path"@, "area"@, 0);
    lemma_differ_at("path"@, "base"@, 0);
    lemma_differ_at("path"@, "link"@, 0);
    lemma_differ_at("path"@, "meta"@, 0);
    lemma_differ_at("circle"@, "option"@, 0);
    lemma_differ_at("circle"@, "header"@, 0);
    lemma_differ_at("circle"@, "footer"@, 0);
    lemma_differ_at("circle"@, "source"@, 0);
    let cur = tag_of(st.last()).unwrap();
    assert(implied_close(tag, cur));
    assert(pop_append(st).len() == st.len() - 1);
    lemma_close_implied_len(pop_append(st), tag);
    assert(close_implied(st, tag) == close_implied(pop_append(st), tag));
    let st1 = close_implied(st, tag);
    let node = dom_elem(tag, attrs, Seq::empty());
    assert(st1.len() < st.len());
    assert(append(st1, node).len() == st1.len());
    assert(st1.push(node).len() == st1.len() + 1);
}

/// An element that no tag implicitly ends opens inside the current element:
/// a tag other than the ones with implied end tags (`li`, `dt`, `dd`,
/// `option`, `tr`, `td`, `th`, `thead`, `tbody`, `tfoot`, and the blocks that
/// close a `<p>`) closes nothing, and unless it is void it is pushed as the
/// new innermost open element.
pub proof fn other_tags_close_nothing(
    st: Seq<DomNode>,
    tag: Seq<char>,
    attrs: Seq<(Seq<char>, Seq<char>)>,
)
    requires
        !(tag == "li"@ || tag == "dt"@ || tag == "dd"@ || tag == "option"@ || tag == "tr"@ || tag == "td"@ || tag == "th"@ || tag == "thead"@ || tag == "tbody"@ || tag == "tfoot"@ || tag == "p"@ || tag == "div"@ || tag == "ul"@ || tag == "ol"@ || tag == "table"@ || tag == "blockquote"@ || tag == "pre"@ || tag == "section"@ || tag == "article"@ || tag == "header"@ || tag == "footer"@ || tag == "nav"@ || tag == "aside"@ || tag == "form"@ || tag == "hr"@ || tag == "h1"@ || tag == "h2"@ || tag == "h3"@ || tag == "h4"@ || tag == "h5"@ || tag == "h6"@),
        !is_void_tag(tag),
    ensures
        open_tag(st, tag, attrs, false) == st.push(dom_elem(tag, attrs, Seq::empty())),
{
    assert(forall|c: Seq<char>| !#[trigger] implied_close(tag, c));
}

/// Table cells never nest by omission: a `<td>` or `<th>` that opens while a
/// `<td>` or `<th>` is the innermost open element closes that cell first, so
/// the new cell is its sibling, not its child. The stack of open elements
/// does not grow, and its innermost element is the new cell.
pub proof fn new_cell_closes_open_cell(
    st: Seq<DomNode>,
    tag: Seq<char>,
    attrs: Seq<(Seq<char>, Seq<char>)>,
)
    requires
        st.len() > 1,
        tag == "td"@ || tag == "th"@,
        tag_of(st.last()) == Some("td"@) || tag_of(st.last()) == Some("th"@),
    ensures
        open_tag(st, tag, attrs, false).len() <= st.len(),
        open_tag(st, tag, attrs, false).last() == dom_elem(tag, attrs, Seq::empty()),
{
    reveal_strlit("td");
    reveal_strlit("th");
    reveal_strlit("li");
    reveal_strlit("dt");
    reveal_strlit("dd");
    reveal_strlit("option");
    reveal_strlit("tr");
    lemma_differ_at("td"@, "li"@, 0);
    lemma_differ_at("td"@, "dt"@, 0);
    lemma_differ_at("td"@, "dd"@, 0);
    lemma_differ_at("td"@, "tr"@, 1);
    lemma_differ_at("th"@, "li"@, 0);
    lemma_differ_at("th"@, "dt"@, 0);
    lemma_differ_at("th"@, "dd"@, 0);
    lemma_differ_at("th"@, "tr"@, 1);
    assert("td"@.len() != "option"@.len() && "th"@.len() != "option"@.len());
    let cur = tag_of(st.last()).unwrap();
    assert(implied_close(tag, cur));
    assert(pop_append(st).len() == st.len() - 1);
    lemma_close_implied_len(pop_append(st), tag);
    assert(close_implied(st, tag) == close_implied(pop_append(st), tag));
    assert(tag.len() == 2 && tag[0] == 't');
    reveal_strlit("br");
    reveal_strlit("hr");
    lemma_differ_at(tag, "br"@, 0);
    lemma_differ_at(tag, "hr"@, 0);
    if is_void_tag(tag) {
        lemma_void_tag_shape(tag);
        reveal_strlit("area");
        reveal_strlit("base");
        reveal_strlit("col");
        reveal_strlit("embed");
        reveal_strlit("img");
        reveal_strlit("input");
        reveal_strlit("link");
        reveal_strlit("meta");
        reveal_strlit("param");
        reveal_strlit("source");
        reveal_strlit("track");
        reveal_strlit("wbr");
        reveal_strlit("path");
        reveal_strlit("circle");
        assert(false);
    }
}

/// Void elements (`<br>`, `<img>`, ...) never have children anywhere in a
/// parsed document: they are attached as soon as they open, so they cannot
/// swallow the content that follows them.
pub proof fn parsed_void_elements_are_empty(s: Seq<char>)
    ensures
        voids_childless(parse_html(s)),
{
    reveal_void_tags();
    let st0 = seq![document_root()];
    assert(voids_childless(document_root()));
    assert(!is_void_element(document_root()));
    assert(open_stack_ok(st0));
    lemma_run_ok(s, st0, 0);
    let st = run(s, st0, 0);
    lemma_pop_to_ok(st, 1);
    let root = pop_to(st, 1)[0];
    assert(voids_childless(root));
    if html_count(root.children) == 1 {
        lemma_html_count_first(root.children);
    } else {
        let h = dom_elem("html"@, Seq::empty(), root.children);
        assert forall|i: int| 0 <= i < h.children.len() implies voids_childless(#[trigger] h.children[i]) by {
            assert(h.children[i] == root.children[i]);
        }
        assert(!is_void_element(h));
    }
}

/// Text without a `&` holds no character reference: decoding leaves it as it is.
pub proof fn decode_without_ampersand(s: Seq<char>)
    requires
        forall|i: int| 0 <= i < s.len() ==> s[i] != '&',
    ensures
        decode(s) == s,
    decreases s.len(),
{
    if s.len() > 0 {
        assert forall|i: int| 0 <= i < s.drop_first().len() implies s.drop_first()[i] != '&' by {
            assert(s.drop_first()[i] == s[i + 1]);
        }
        decode_without_ampersand(s.drop_first());
        assert(seq![s[0]] + s.drop_first() == s);
    }
}

} // verus!
