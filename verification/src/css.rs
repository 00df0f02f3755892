//! A small CSS parser: stylesheet text in, a list of rules out.
//!
//! A stylesheet is a list of rules; each rule has one or more selectors and a
//! block of `property: value;` declarations. Only simple selectors are modelled
//! (a tag name, an `#id`, `.class`es, `*`); anything the parser cannot
//! understand (an `@media` block, a combinator, a malformed rule) is skipped
//! rather than aborting the parse.
//!
//! Numbers are kept as the exact text of their token (a valid decimal literal)
//! and colour functions (`rgb(..)`, `hsl(..)`) as their name and argument text:
//! turning those into floating-point lengths and colours is left to the
//! rendering front end.
use vstd::prelude::*;
use crate::chars::{
    chars_of, lower, lower_chars, lower_seq, is_ascii_digit, is_hex_digit, is_unicode_ws,
    has_at, str_eq_chars, string_of, string_of_range, vec2, chars_at, ascii_digit, seq_lt, trim,
    trim_chars,
};
use crate::scan::{Stop, scan, scan_to, lemma_scan, find, find_chars, lemma_find, is_ident_char,
    stops_at};

verus! {

// --- Values ------------------------------------------------------------------------

/// An 8-bit-per-channel RGBA colour.
#[derive(Debug, Clone, Copy, PartialEq, Eq, Structural)]
pub struct Color {
    pub r: u8,
    pub g: u8,
    pub b: u8,
    pub a: u8,
}

impl Color {
    /// An opaque colour.
    pub fn rgb(r: u8, g: u8, b: u8) -> (c: Color)
        ensures
            c == (Color { r, g, b, a: 255 }),
    {
        Color { r, g, b, a: 255 }
    }

    /// Fully transparent black.
    pub fn transparent() -> (c: Color)
        ensures
            c == (Color { r: 0, g: 0, b: 0, a: 0 }),
    {
        Color { r: 0, g: 0, b: 0, a: 0 }
    }
}

#[derive(Debug, Clone, Copy, PartialEq, Eq, Structural)]
pub enum Unit {
    Px,
    Em,
    Rem,
    Pt,
    Percent,
    /// Viewport width percentage (`1vw` = 1% of the viewport width).
    Vw,
    /// Viewport height percentage.
    Vh,
}

/// The text of a numeric token: an optional sign, then digits with at most one
/// decimal point and at least one digit (the decimal literals that
/// the standard library parses as numbers among strings of digits, `.`, `+`
/// and `-`).
#[derive(Debug, Clone, PartialEq)]
pub struct Number {
    text: String,
}

impl View for Number {
    type V = Seq<char>;

    closed spec fn view(&self) -> Seq<char> {
        self.text@
    }
}

/// Digits with at most one `.` and at least one digit.
pub open spec fn is_decimal_body(t: Seq<char>) -> bool {
    &&& forall|i: int| 0 <= i < t.len() ==> is_ascii_digit(#[trigger] t[i]) || t[i] == '.'
    &&& forall|i: int, j: int| 0 <= i < j < t.len() && #[trigger] t[i] == '.' ==> #[trigger] t[j] != '.'
    &&& exists|i: int| 0 <= i < t.len() && is_ascii_digit(#[trigger] t[i])
}

/// A decimal literal with an optional sign.
pub open spec fn is_decimal(t: Seq<char>) -> bool {
    if t.len() > 0 && (t[0] == '+' || t[0] == '-') {
        is_decimal_body(t.drop_first())
    } else {
        is_decimal_body(t)
    }
}

impl Number {
    /// The number written as `text`, if it is a decimal literal.
    pub fn parse(text: &str) -> (r: Option<Number>)
        ensures
            r is Some <==> is_decimal(text@),
            r matches Some(n) ==> n@ == text@,
    {
        let v = chars_of(text);
        if decimal(&v) {
            Some(Number { text: string_of(&v) })
        } else {
            None
        }
    }

    /// The literal's text.
    pub fn as_str(&self) -> (r: &str)
        ensures
            r@ == self@,
    {
        self.text.as_str()
    }
}

/// Whether `t` is a decimal literal.
fn decimal(t: &Vec<char>) -> (r: bool)
    ensures
        r == is_decimal(t@),
{
    let start: usize = if t.len() > 0 && (t[0] == '+' || t[0] == '-') {
        1
    } else {
        0
    };
    let ghost body = if t@.len() > 0 && (t@[0] == '+' || t@[0] == '-') {
        t@.drop_first()
    } else {
        t@
    };
    assert(body == t@.skip(start as int));
    let mut dots: usize = 0;
    let mut digits: bool = false;
    let mut i = start;
    while i < t.len()
        invariant
            start <= i <= t@.len(),
            body == t@.skip(start as int),
            body == (if t@.len() > 0 && (t@[0] == '+' || t@[0] == '-') {
                t@.drop_first()
            } else {
                t@
            }),
            dots <= 1,
            forall|k: int| start <= k < i ==> is_ascii_digit(#[trigger] t@[k]) || t@[k] == '.',
            dots == 0 ==> forall|k: int| start <= k < i ==> #[trigger] t@[k] != '.',
            dots == 1 ==> forall|k: int, m: int| start <= k < m < i && #[trigger] t@[k] == '.' ==> #[trigger] t@[m] != '.',
            dots == 1 ==> exists|k: int| start <= k < i && #[trigger] t@[k] == '.',
            digits <==> exists|k: int| start <= k < i && is_ascii_digit(#[trigger] t@[k]),
        decreases t.len() - i,
    {
        let c = t[i];
        if ascii_digit(c) {
            digits = true;
        } else if c == '.' {
            if dots == 1 {
                proof {
                    let k = choose|k: int| start <= k < i && #[trigger] t@[k] == '.';
                    assert(body[k - start] == '.' && body[i - start] == '.');
                    assert(!is_decimal_body(body));
                }
                return false;
            }
            dots = 1;
        } else {
            assert(body[i - start] == c);
            assert(!is_decimal_body(body));
            return false;
        }
        i += 1;
    }
    proof {
        if digits {
            let k = choose|k: int| start <= k < i && is_ascii_digit(#[trigger] t@[k]);
            assert(is_ascii_digit(body[k - start]));
        } else {
            assert forall|k: int| 0 <= k < body.len() implies !is_ascii_digit(#[trigger] body[k]) by {
                assert(body[k] == t@[k + start]);
            }
        }
        assert forall|a: int, b: int| 0 <= a < b < body.len() && #[trigger] body[a] == '.' implies #[trigger] body[b] != '.' by {
            assert(body[a] == t@[a + start]);
            assert(body[b] == t@[b + start]);
        }
        assert forall|k: int| 0 <= k < body.len() implies is_ascii_digit(#[trigger] body[k]) || body[k] == '.' by {
            assert(body[k] == t@[k + start]);
        }
    }
    digits
}

/// A CSS value. Only the shapes layout and paint care about are kept.
#[derive(Debug, Clone, PartialEq)]
pub enum Value {
    Keyword(String),
    Length(Number, Unit),
    ColorValue(Color),
    /// An `rgb(..)`, `rgba(..)`, `hsl(..)` or `hsla(..)` colour: the lower-cased
    /// function name and the text between the parentheses.
    ColorFunction(String, String),
}

/// The model of a value.
pub enum CssValue {
    Keyword(Seq<char>),
    Length(Seq<char>, Unit),
    Color(Color),
    ColorFunction(Seq<char>, Seq<char>),
}

impl View for Value {
    type V = CssValue;

    open spec fn view(&self) -> CssValue {
        match self {
            Value::Keyword(k) => CssValue::Keyword(k@),
            Value::Length(n, u) => CssValue::Length(n@, *u),
            Value::ColorValue(c) => CssValue::Color(*c),
            Value::ColorFunction(f, a) => CssValue::ColorFunction(f@, a@),
        }
    }
}

impl Value {
    /// The keyword text, if this value is a keyword.
    pub fn keyword(&self) -> (r: Option<&str>)
        ensures
            match r {
                Some(k) => self@ == CssValue::Keyword(k@),
                None => !(self@ is Keyword),
            },
    {
        match self {
            Value::Keyword(k) => Some(k.as_str()),
            _ => None,
        }
    }

    /// A copy of this value.
    pub fn copy(&self) -> (r: Value)
        ensures
            r@ == self@,
    {
        match self {
            Value::Keyword(k) => Value::Keyword(k.clone()),
            Value::Length(n, u) => Value::Length(Number { text: n.text.clone() }, *u),
            Value::ColorValue(c) => Value::ColorValue(*c),
            Value::ColorFunction(f, a) => Value::ColorFunction(f.clone(), a.clone()),
        }
    }
}

// --- Selectors, declarations, rules ---------------------------------------------

/// Specificity is the tie-breaker in the cascade: (#id, #class, #tag). Higher
/// wins. `*` and bare declarations count for nothing.
pub type Specificity = (usize, usize, usize);

/// We only model simple selectors. The enum leaves room to grow.
#[derive(Debug, Clone, PartialEq)]
pub enum Selector {
    Simple(SimpleSelector),
}

#[derive(Debug, Clone, Default, PartialEq)]
pub struct SimpleSelector {
    pub tag_name: Option<String>,
    pub id: Option<String>,
    pub classes: Vec<String>,
}

/// The model of a simple selector.
pub struct CssSelector {
    pub tag: Option<Seq<char>>,
    pub id: Option<Seq<char>>,
    pub classes: Seq<Seq<char>>,
}

pub open spec fn opt_view(o: Option<String>) -> Option<Seq<char>> {
    match o {
        Some(s) => Some(s@),
        None => None,
    }
}

impl View for SimpleSelector {
    type V = CssSelector;

    open spec fn view(&self) -> CssSelector {
        CssSelector {
            tag: opt_view(self.tag_name),
            id: opt_view(self.id),
            classes: self.classes@.map_values(|c: String| c@),
        }
    }
}

impl View for Selector {
    type V = CssSelector;

    open spec fn view(&self) -> CssSelector {
        match self {
            Selector::Simple(s) => s@,
        }
    }
}

/// The specificity of a selector: (ids, classes, tags).
pub open spec fn specificity_of(s: CssSelector) -> (nat, nat, nat) {
    (if s.id is Some {
        1nat
    } else {
        0nat
    }, s.classes.len(), if s.tag is Some {
        1nat
    } else {
        0nat
    })
}

/// Lexicographic order on specificities.
pub open spec fn spec_lt(a: (nat, nat, nat), b: (nat, nat, nat)) -> bool {
    a.0 < b.0 || (a.0 == b.0 && (a.1 < b.1 || (a.1 == b.1 && a.2 < b.2)))
}

impl Selector {
    /// The selector's specificity: (ids, classes, tag names).
    pub fn specificity(&self) -> (r: Specificity)
        ensures
            (r.0 as nat, r.1 as nat, r.2 as nat) == specificity_of(self@),
    {
        let Selector::Simple(s) = self;
        let a: usize = if s.id.is_some() {
            1
        } else {
            0
        };
        let b = s.classes.len();
        let c: usize = if s.tag_name.is_some() {
            1
        } else {
            0
        };
        (a, b, c)
    }
}

/// `a < b` for specificities.
pub fn specificity_less(a: Specificity, b: Specificity) -> (r: bool)
    ensures
        r == spec_lt((a.0 as nat, a.1 as nat, a.2 as nat), (b.0 as nat, b.1 as nat, b.2 as nat)),
{
    a.0 < b.0 || (a.0 == b.0 && (a.1 < b.1 || (a.1 == b.1 && a.2 < b.2)))
}

#[derive(Debug, Clone, PartialEq)]
pub struct Declaration {
    pub name: String,
    pub value: Value,
}

/// The model of a declaration.
pub struct CssDeclaration {
    pub name: Seq<char>,
    pub value: CssValue,
}

impl View for Declaration {
    type V = CssDeclaration;

    open spec fn view(&self) -> CssDeclaration {
        CssDeclaration { name: self.name@, value: self.value@ }
    }
}

#[derive(Debug, Clone, PartialEq)]
pub struct Rule {
    pub selectors: Vec<Selector>,
    pub declarations: Vec<Declaration>,
}

/// The model of a rule.
pub struct CssRule {
    pub selectors: Seq<CssSelector>,
    pub declarations: Seq<CssDeclaration>,
}

impl View for Rule {
    type V = CssRule;

    open spec fn view(&self) -> CssRule {
        CssRule {
            selectors: self.selectors@.map_values(|s: Selector| s@),
            declarations: self.declarations@.map_values(|d: Declaration| d@),
        }
    }
}

/// A parsed stylesheet: an ordered list of rules.
#[derive(Debug, Clone, Default, PartialEq)]
pub struct Stylesheet {
    pub rules: Vec<Rule>,
}

impl View for Stylesheet {
    type V = Seq<CssRule>;

    open spec fn view(&self) -> Seq<CssRule> {
        self.rules@.map_values(|r: Rule| r@)
    }
}


// --- The parser, as a model ----------------------------------------------------------

/// The character at `p`, or `'\0'` past the end.
pub open spec fn nc(s: Seq<char>, p: int) -> char {
    if 0 <= p < s.len() {
        s[p]
    } else {
        '\0'
    }
}

/// One round of skipping white space and then a `/* .. */` comment (an
/// unterminated comment runs to the end).
pub open spec fn ws_comment_step(s: Seq<char>, p: int) -> int {
    let p1 = scan(s, p, Stop::NotUnicodeWs);
    if has_at(s, p1, seq!['/', '*']) {
        let e = find(s, p1, seq!['*', '/']);
        if e < s.len() {
            e + 2
        } else {
            s.len() as int
        }
    } else {
        p1
    }
}

/// Skip white space and comments.
pub open spec fn skip_wsc(s: Seq<char>, p: int) -> int
    decreases s.len() - p,
{
    if p < 0 || p > s.len() {
        p
    } else {
        let p2 = ws_comment_step(s, p);
        if p2 <= p {
            p
        } else {
            proof {
                lemma_ws_comment_step(s, p);
            }
            skip_wsc(s, p2)
        }
    }
}

pub proof fn lemma_ws_comment_step(s: Seq<char>, p: int)
    requires
        0 <= p <= s.len(),
    ensures
        p <= ws_comment_step(s, p) <= s.len(),
{
    lemma_scan(s, p, Stop::NotUnicodeWs);
    let p1 = scan(s, p, Stop::NotUnicodeWs);
    lemma_find(s, p1, seq!['*', '/']);
    let e = find(s, p1, seq!['*', '/']);
    if e < s.len() && has_at(s, p1, seq!['/', '*']) {
        lemma_find_has(s, p1, seq!['*', '/']);
    }
}

pub proof fn lemma_find_has(s: Seq<char>, p: int, pat: Seq<char>)
    requires
        0 <= p <= s.len(),
        find(s, p, pat) < s.len(),
    ensures
        has_at(s, find(s, p, pat), pat),
    decreases s.len() - p,
{
    if p < s.len() && !has_at(s, p, pat) {
        lemma_find_has(s, p + 1, pat);
    }
}

pub proof fn lemma_skip_wsc(s: Seq<char>, p: int)
    requires
        0 <= p <= s.len(),
    ensures
        p <= skip_wsc(s, p) <= s.len(),
        ws_comment_step(s, skip_wsc(s, p)) == skip_wsc(s, p),
        skip_wsc(s, skip_wsc(s, p)) == skip_wsc(s, p),
    decreases s.len() - p,
{
    lemma_ws_comment_step(s, p);
    let p2 = ws_comment_step(s, p);
    if p2 > p {
        lemma_skip_wsc(s, p2);
    }
}

/// An identifier: ASCII letters, digits, `-` and `_`.
pub open spec fn ident(s: Seq<char>, p: int) -> (Seq<char>, int) {
    let e = scan(s, p, Stop::IdentEnd);
    (s.subrange(p, e), e)
}

/// The unit of a length: the identifier or `%` after the number.
pub open spec fn unit_of(t: Seq<char>) -> Unit {
    let l = lower_seq(t);
    if l == "px"@ || l.len() == 0 {
        Unit::Px
    } else if l == "em"@ {
        Unit::Em
    } else if l == "rem"@ {
        Unit::Rem
    } else if l == "pt"@ {
        Unit::Pt
    } else if l == "%"@ {
        Unit::Percent
    } else if l == "vw"@ {
        Unit::Vw
    } else if l == "vh"@ {
        Unit::Vh
    } else {
        Unit::Px
    }
}

/// A length: a decimal literal and a unit (unknown units count as `px`).
pub open spec fn length(s: Seq<char>, p: int) -> (Option<CssValue>, int) {
    let e = scan(s, p, Stop::NumberEnd);
    let num = s.subrange(p, e);
    if !is_decimal(num) {
        (None, e)
    } else if nc(s, e) == '%' {
        (Some(CssValue::Length(num, Unit::Percent)), e + 1)
    } else {
        let (u, e2) = ident(s, e);
        (Some(CssValue::Length(num, unit_of(u))), e2)
    }
}

pub open spec fn hex_val(c: char) -> nat {
    if is_ascii_digit(c) {
        (c as u32 - '0' as u32) as nat
    } else if 'a' <= c && c <= 'f' {
        (c as u32 - 'a' as u32 + 10) as nat
    } else {
        (c as u32 - 'A' as u32 + 10) as nat
    }
}

/// The byte written by two hex digits.
pub open spec fn hex_byte(a: char, b: char) -> u8 {
    (hex_val(a) * 16 + hex_val(b)) as u8
}

/// `#rgb`, `#rrggbb` or `#rrggbbaa` (given as hex digits without the `#`).
pub open spec fn hex_color(h: Seq<char>) -> Option<Color> {
    if h.len() == 3 {
        Some(Color { r: hex_byte(h[0], h[0]), g: hex_byte(h[1], h[1]), b: hex_byte(h[2], h[2]), a: 255 })
    } else if h.len() == 6 {
        Some(Color { r: hex_byte(h[0], h[1]), g: hex_byte(h[2], h[3]), b: hex_byte(h[4], h[5]), a: 255 })
    } else if h.len() == 8 {
        Some(Color { r: hex_byte(h[0], h[1]), g: hex_byte(h[2], h[3]), b: hex_byte(h[4], h[5]), a: hex_byte(h[6], h[7]) })
    } else {
        None
    }
}

pub open spec fn rgb(r: u8, g: u8, b: u8) -> Color {
    Color { r, g, b, a: 255 }
}

/// The CSS named colours the pages and user-agent stylesheet use.
pub open spec fn named_color(name: Seq<char>) -> Option<Color> {
    let n = lower_seq(name);
    if n == "black"@ {
        Some(rgb(0, 0, 0))
    } else if n == "white"@ {
        Some(rgb(255, 255, 255))
    } else if n == "red"@ {
        Some(rgb(255, 0, 0))
    } else if n == "green"@ {
        Some(rgb(0, 128, 0))
    } else if n == "blue"@ {
        Some(rgb(0, 0, 255))
    } else if n == "navy"@ {
        Some(rgb(0, 0, 128))
    } else if n == "gray"@ || n == "grey"@ {
        Some(rgb(128, 128, 128))
    } else if n == "silver"@ {
        Some(rgb(192, 192, 192))
    } else if n == "lightgray"@ || n == "lightgrey"@ {
        Some(rgb(211, 211, 211))
    } else if n == "darkgray"@ || n == "darkgrey"@ {
        Some(rgb(169, 169, 169))
    } else if n == "whitesmoke"@ {
        Some(rgb(245, 245, 245))
    } else if n == "gainsboro"@ {
        Some(rgb(220, 220, 220))
    } else if n == "yellow"@ {
        Some(rgb(255, 255, 0))
    } else if n == "orange"@ {
        Some(rgb(255, 165, 0))
    } else if n == "purple"@ {
        Some(rgb(128, 0, 128))
    } else if n == "teal"@ {
        Some(rgb(0, 128, 128))
    } else if n == "maroon"@ {
        Some(rgb(128, 0, 0))
    } else if n == "olive"@ {
        Some(rgb(128, 128, 0))
    } else if n == "lime"@ {
        Some(rgb(0, 255, 0))
    } else if n == "aqua"@ || n == "cyan"@ {
        Some(rgb(0, 255, 255))
    } else if n == "fuchsia"@ || n == "magenta"@ {
        Some(rgb(255, 0, 255))
    } else if n == "transparent"@ {
        Some(Color { r: 0, g: 0, b: 0, a: 0 })
    } else {
        None
    }
}

/// One or more ASCII digits.
pub open spec fn is_digits(d: Seq<char>) -> bool {
    d.len() > 0 && forall|i: int| 0 <= i < d.len() ==> is_ascii_digit(#[trigger] d[i])
}

/// An exponent: an optional sign and one or more digits.
pub open spec fn is_exponent(e: Seq<char>) -> bool {
    if e.len() > 0 && (e[0] == '+' || e[0] == '-') {
        is_digits(e.drop_first())
    } else {
        is_digits(e)
    }
}

/// A number written as digits with at most one `.` and an optional exponent
/// (`e` followed by an optional sign and digits); `l` is lower-cased.
pub open spec fn is_mantissa_exponent(l: Seq<char>) -> bool {
    let k = scan(l, 0, Stop::Char('e'));
    is_decimal_body(l.subrange(0, k)) && (k >= l.len() || is_exponent(l.subrange(k + 1, l.len() as int)))
}

/// The texts the standard library's `f32` parser accepts: an optional sign,
/// then `inf`, `infinity`, `nan` or a number with an optional exponent,
/// ignoring ASCII case.
pub open spec fn is_float_text(t: Seq<char>) -> bool {
    let b = if t.len() > 0 && (t[0] == '+' || t[0] == '-') {
        t.drop_first()
    } else {
        t
    };
    let l = lower_seq(b);
    l == "inf"@ || l == "infinity"@ || l == "nan"@ || is_mantissa_exponent(l)
}

/// The separators between colour-function arguments.
pub open spec fn is_arg_sep(c: char) -> bool {
    c == ',' || c == ' ' || c == '/'
}

/// The pieces of `s` between separators (as `str::split` on `,`, ` ` and
/// `/` gives them), `cur` being the piece read so far.
pub open spec fn split_args(s: Seq<char>, cur: Seq<char>) -> Seq<Seq<char>>
    decreases s.len(),
{
    if s.len() == 0 {
        seq![cur]
    } else if is_arg_sep(s[0]) {
        seq![cur] + split_args(s.drop_first(), Seq::empty())
    } else {
        split_args(s.drop_first(), cur.push(s[0]))
    }
}

/// `t` without its trailing `%`s.
pub open spec fn strip_percents(t: Seq<char>) -> Seq<char>
    decreases t.len(),
{
    if t.len() > 0 && t.last() == '%' {
        strip_percents(t.drop_last())
    } else {
        t
    }
}

/// A piece that is a number: not blank, and trimmed and without trailing
/// `%`s, a number text.
pub open spec fn is_number_arg(t: Seq<char>) -> bool {
    trim(t).len() > 0 && is_float_text(strip_percents(trim(t)))
}

/// How many of the pieces are numbers.
pub open spec fn count_numbers(ts: Seq<Seq<char>>) -> nat
    decreases ts.len(),
{
    if ts.len() == 0 {
        0
    } else {
        count_numbers(ts.drop_last()) + if is_number_arg(ts.last()) {
            1nat
        } else {
            0nat
        }
    }
}

/// How many numbers the argument text of a colour function holds.
pub open spec fn numeric_arg_count(args: Seq<char>) -> nat {
    count_numbers(split_args(args, Seq::empty()))
}

/// `rgb(..)`, `rgba(..)`, `hsl(..)`, `hsla(..)` after the function name `word`,
/// at the `(`, and the position after `)`: the function and its argument text
/// when the arguments hold at least three numbers, else the function's name
/// as a keyword.
pub open spec fn color_function(word: Seq<char>, s: Seq<char>, p: int) -> (Option<CssValue>, int) {
    let f = lower_seq(word);
    if !(f == "rgb"@ || f == "rgba"@ || f == "hsl"@ || f == "hsla"@) || nc(s, p) != '(' {
        (None, p)
    } else {
        let e = scan(s, p + 1, Stop::Char(')'));
        if e >= s.len() {
            (None, p)
        } else if numeric_arg_count(s.subrange(p + 1, e)) >= 3 {
            (Some(CssValue::ColorFunction(f, s.subrange(p + 1, e))), e + 1)
        } else {
            (Some(CssValue::Keyword(f)), e + 1)
        }
    }
}

/// A value at `p`: a hex colour, a length, a colour function, a named colour
/// or a (lower-cased) keyword.
pub open spec fn value(s: Seq<char>, p: int) -> (Option<CssValue>, int) {
    let c = nc(s, p);
    if c == '#' {
        let e = scan(s, p + 1, Stop::NotHexDigit);
        (match hex_color(s.subrange(p + 1, e)) {
            Some(col) => Some(CssValue::Color(col)),
            None => None,
        }, e)
    } else if is_ascii_digit(c) || c == '-' || c == '.' || c == '+' {
        length(s, p)
    } else {
        let e = scan(s, p, Stop::WordEnd);
        let word = s.subrange(p, e);
        if word.len() == 0 {
            (None, e)
        } else {
            let (f, e2) = color_function(word, s, e);
            if f is Some {
                (f, e2)
            } else if named_color(word) is Some {
                (Some(CssValue::Color(named_color(word).unwrap())), e2)
            } else {
                (Some(CssValue::Keyword(lower_seq(word))), e2)
            }
        }
    }
}

/// A declaration `name: value` at `p`, and the position of the following `;`
/// or `}` (so that trailing text such as `!important` is skipped).
pub open spec fn declaration(s: Seq<char>, p: int) -> (Option<CssDeclaration>, int) {
    let (n0, p1) = ident(s, p);
    let name = lower_seq(n0);
    let p2 = skip_wsc(s, p1);
    if nc(s, p2) != ':' {
        (None, p2)
    } else {
        let p3 = skip_wsc(s, p2 + 1);
        let (v, p4) = value(s, p3);
        if v is None {
            (None, p4)
        } else {
            let p5 = scan(s, p4, Stop::EitherChar(';', '}'));
            if name.len() == 0 {
                (None, p5)
            } else {
                (Some(CssDeclaration { name, value: v.unwrap() }), p5)
            }
        }
    }
}

/// Declarations from `p` up to a `}` or the end, appended to `acc`; anything
/// unparsable is skipped up to the next `;` or `}`.
pub open spec fn declarations_from(s: Seq<char>, p: int, acc: Seq<CssDeclaration>) -> (
    Seq<CssDeclaration>,
    int,
)
    decreases s.len() - p,
{
    let p1 = skip_wsc(s, p);
    let c = nc(s, p1);
    if p < 0 || p > s.len() || c == '}' || c == '\0' {
        (acc, p1)
    } else if c == ';' {
        proof {
            lemma_skip_wsc(s, p);
        }
        declarations_from(s, p1 + 1, acc)
    } else {
        let (d, p2) = declaration(s, p1);
        proof {
            lemma_skip_wsc(s, p);
            lemma_declaration(s, p1);
        }
        if d is Some {
            declarations_from(s, p2, acc.push(d.unwrap()))
        } else {
            declarations_from(s, scan(s, p2, Stop::EitherChar(';', '}')), acc)
        }
    }
}

/// A simple selector at `p`, built on `sel` (`matched` when something was read).
pub open spec fn simple_from(s: Seq<char>, p: int, sel: CssSelector, matched: bool) -> (
    Option<CssSelector>,
    int,
)
    decreases s.len() - p,
{
    let c = nc(s, p);
    if p < 0 || p >= s.len() {
        (if matched {
            Some(sel)
        } else {
            None
        }, p)
    } else if c == '#' {
        let (id, p2) = ident(s, p + 1);
        proof {
            lemma_scan(s, p + 1, Stop::IdentEnd);
        }
        simple_from(s, p2, CssSelector { id: Some(id), ..sel }, true)
    } else if c == '.' {
        let (cls, p2) = ident(s, p + 1);
        proof {
            lemma_scan(s, p + 1, Stop::IdentEnd);
        }
        simple_from(s, p2, CssSelector { classes: sel.classes.push(cls), ..sel }, true)
    } else if c == '*' {
        simple_from(s, p + 1, sel, true)
    } else if is_ident_char(c) {
        let (t, p2) = ident(s, p);
        proof {
            lemma_scan(s, p, Stop::IdentEnd);
        }
        simple_from(s, p2, CssSelector { tag: Some(lower_seq(t)), ..sel }, true)
    } else {
        (if matched {
            Some(sel)
        } else {
            None
        }, p)
    }
}

pub open spec fn empty_selector() -> CssSelector {
    CssSelector { tag: None, id: None, classes: Seq::empty() }
}

/// A comma-separated selector list up to (and past) the `{`, in source order.
/// A selector followed by anything but `,` or `{` (a combinator, a pseudo-class,
/// an attribute selector) is dropped whole.
pub open spec fn selectors_from(s: Seq<char>, p: int, acc: Seq<CssSelector>) -> (
    Seq<CssSelector>,
    int,
)
    decreases s.len() - p,
{
    let p1 = skip_wsc(s, p);
    let c = nc(s, p1);
    if p < 0 || p > s.len() || c == '\0' {
        (acc, p1)
    } else if c == '{' {
        (acc, p1 + 1)
    } else if c == ',' {
        proof {
            lemma_skip_wsc(s, p);
        }
        selectors_from(s, p1 + 1, acc)
    } else {
        let (parsed, p2) = simple_from(s, p1, empty_selector(), false);
        let p3 = skip_wsc(s, p2);
        let c2 = nc(s, p3);
        proof {
            lemma_skip_wsc(s, p);
            lemma_simple_from(s, p1, empty_selector(), false);
            lemma_skip_wsc(s, p2);
            lemma_scan(s, p3, Stop::EitherChar('{', ','));
        }
        if parsed is Some && (c2 == ',' || c2 == '{' || c2 == '\0') {
            selectors_from(s, p3, acc.push(parsed.unwrap()))
        } else {
            selectors_from(s, scan(s, p3, Stop::EitherChar('{', ',')), acc)
        }
    }
}

/// Insert `x` into `sorted` after every selector at least as specific.
pub open spec fn insert_by_specificity(sorted: Seq<CssSelector>, x: CssSelector) -> Seq<
    CssSelector,
>
    decreases sorted.len(),
{
    if sorted.len() == 0 {
        seq![x]
    } else if spec_lt(specificity_of(sorted[0]), specificity_of(x)) {
        seq![x] + sorted
    } else {
        seq![sorted[0]] + insert_by_specificity(sorted.drop_first(), x)
    }
}

/// A stable sort, highest specificity first (`sort_by_key(|s| Reverse(s.specificity()))`).
pub open spec fn sort_by_specificity(s: Seq<CssSelector>) -> Seq<CssSelector>
    decreases s.len(),
{
    if s.len() == 0 {
        Seq::empty()
    } else {
        insert_by_specificity(sort_by_specificity(s.drop_last()), s.last())
    }
}

/// The selectors of a rule, highest specificity first.
pub open spec fn selectors(s: Seq<char>, p: int) -> (Seq<CssSelector>, int) {
    let (sels, p1) = selectors_from(s, p, Seq::empty());
    (sort_by_specificity(sels), p1)
}

/// A declaration block up to and past its `}`.
pub open spec fn declaration_block(s: Seq<char>, p: int) -> (Seq<CssDeclaration>, int) {
    let (ds, p1) = declarations_from(s, p, Seq::empty());
    (ds, if nc(s, p1) == '}' {
        p1 + 1
    } else {
        p1
    })
}

/// A rule at `p`; `None` when no selector survived.
pub open spec fn rule(s: Seq<char>, p: int) -> (Option<CssRule>, int) {
    let (sels, p1) = selectors(s, p);
    let (ds, p2) = declaration_block(s, p1);
    if sels.len() == 0 {
        (None, p2)
    } else {
        (Some(CssRule { selectors: sels, declarations: ds }), p2)
    }
}

/// Skip a `{ .. }` block with nested braces from `p`, at brace depth `depth`.
pub open spec fn skip_braces(s: Seq<char>, p: int, depth: int) -> int
    decreases s.len() - p,
{
    if p < 0 || p >= s.len() {
        p
    } else if s[p] == '{' {
        skip_braces(s, p + 1, depth + 1)
    } else if s[p] == '}' {
        if depth - 1 == 0 {
            p + 1
        } else {
            skip_braces(s, p + 1, depth - 1)
        }
    } else {
        skip_braces(s, p + 1, depth)
    }
}

/// Skip an at-rule (`@name .. ;` or `@name .. { .. }`) from `p`, one
/// character at a time.
pub open spec fn skip_at_rule(s: Seq<char>, p: int) -> int
    decreases s.len() - p,
{
    if p < 0 || p >= s.len() {
        p
    } else if s[p] == ';' {
        p + 1
    } else if s[p] == '{' {
        skip_braces(s, p, 0)
    } else {
        skip_at_rule(s, p + 1)
    }
}

/// The rules from `p` to the end. At-rules are skipped whole; where a rule
/// cannot even start (a NUL character there), that one character is skipped.
pub open spec fn rules_from(s: Seq<char>, p: int) -> Seq<CssRule>
    decreases s.len() - p,
{
    let p1 = skip_wsc(s, p);
    if p < 0 || p > s.len() || p1 >= s.len() {
        Seq::empty()
    } else if s[p1] == '@' {
        proof {
            lemma_skip_wsc(s, p);
            lemma_skip_at_rule(s, p1 + 1);
        }
        rules_from(s, skip_at_rule(s, p1))
    } else {
        let (r, p2) = rule(s, p1);
        proof {
            lemma_skip_wsc(s, p);
            lemma_rule(s, p1);
        }
        if p2 > p1 {
            if r is Some {
                seq![r.unwrap()] + rules_from(s, p2)
            } else {
                rules_from(s, p2)
            }
        } else {
            rules_from(s, p1 + 1)
        }
    }
}

/// The rules of the stylesheet `s`.
pub open spec fn css_rules(s: Seq<char>) -> Seq<CssRule> {
    rules_from(s, 0)
}

/// The declarations of a `style="..."` attribute value.
pub open spec fn css_declarations(s: Seq<char>) -> Seq<CssDeclaration> {
    declarations_from(s, 0, Seq::empty()).0
}

// --- Progress ------------------------------------------------------------------------

pub proof fn lemma_value(s: Seq<char>, p: int)
    requires
        0 <= p <= s.len(),
    ensures
        p <= value(s, p).1 <= s.len(),
{
    let c = nc(s, p);
    if c == '#' {
        lemma_scan(s, p + 1, Stop::NotHexDigit);
    } else if is_ascii_digit(c) || c == '-' || c == '.' || c == '+' {
        lemma_scan(s, p, Stop::NumberEnd);
        let e = scan(s, p, Stop::NumberEnd);
        lemma_scan(s, e, Stop::IdentEnd);
    } else {
        lemma_scan(s, p, Stop::WordEnd);
        let e = scan(s, p, Stop::WordEnd);
        if e < s.len() {
            lemma_scan(s, e + 1, Stop::Char(')'));
        }
    }
}

pub proof fn lemma_declaration(s: Seq<char>, p: int)
    requires
        0 <= p < s.len(),
        s[p] != ';',
        s[p] != '}',
    ensures
        p <= declaration(s, p).1 <= s.len(),
        declaration(s, p).0 is Some ==> p < declaration(s, p).1,
        p < scan(s, declaration(s, p).1, Stop::EitherChar(';', '}')),
        scan(s, declaration(s, p).1, Stop::EitherChar(';', '}')) <= s.len(),
{
    lemma_scan(s, p, Stop::IdentEnd);
    let (n0, p1) = ident(s, p);
    lemma_skip_wsc(s, p1);
    let p2 = skip_wsc(s, p1);
    if nc(s, p2) == ':' {
        lemma_skip_wsc(s, p2 + 1);
        let p3 = skip_wsc(s, p2 + 1);
        lemma_value(s, p3);
        let p4 = value(s, p3).1;
        lemma_scan(s, p4, Stop::EitherChar(';', '}'));
        let p5 = scan(s, p4, Stop::EitherChar(';', '}'));
        lemma_scan(s, p5, Stop::EitherChar(';', '}'));
        if lower_seq(n0).len() > 0 {
            assert(n0.len() > 0);
        }
    }
    let q = declaration(s, p).1;
    lemma_scan(s, q, Stop::EitherChar(';', '}'));
}

pub proof fn lemma_declarations_from(s: Seq<char>, p: int, acc: Seq<CssDeclaration>)
    requires
        0 <= p <= s.len(),
    ensures
        p <= declarations_from(s, p, acc).1 <= s.len(),
    decreases s.len() - p,
{
    lemma_skip_wsc(s, p);
    let p1 = skip_wsc(s, p);
    let c = nc(s, p1);
    if c == '}' || c == '\0' {
    } else if c == ';' {
        lemma_declarations_from(s, p1 + 1, acc);
    } else {
        lemma_declaration(s, p1);
        let (d, p2) = declaration(s, p1);
        if d is Some {
            lemma_declarations_from(s, p2, acc.push(d.unwrap()));
        } else {
            lemma_declarations_from(s, scan(s, p2, Stop::EitherChar(';', '}')), acc);
        }
    }
}

pub proof fn lemma_simple_from(s: Seq<char>, p: int, sel: CssSelector, matched: bool)
    requires
        0 <= p <= s.len(),
    ensures
        p <= simple_from(s, p, sel, matched).1 <= s.len(),
        matched ==> simple_from(s, p, sel, matched).0 is Some,
        !matched && simple_from(s, p, sel, matched).0 is None ==> simple_from(s, p, sel, matched).1 == p,
        !matched && simple_from(s, p, sel, matched).0 is None ==> p < s.len() ==> !(s[p] == '#'
            || s[p] == '.' || s[p] == '*' || is_ident_char(s[p])),
    decreases s.len() - p,
{
    if p < s.len() {
        let c = s[p];
        if c == '#' || c == '.' {
            lemma_scan(s, p + 1, Stop::IdentEnd);
            let p2 = ident(s, p + 1).1;
            if c == '#' {
                lemma_simple_from(s, p2, CssSelector { id: Some(ident(s, p + 1).0), ..sel }, true);
            } else {
                lemma_simple_from(s, p2, CssSelector { classes: sel.classes.push(ident(s, p + 1).0), ..sel }, true);
            }
        } else if c == '*' {
            lemma_simple_from(s, p + 1, sel, true);
        } else if is_ident_char(c) {
            lemma_scan(s, p, Stop::IdentEnd);
            let (t, p2) = ident(s, p);
            lemma_simple_from(s, p2, CssSelector { tag: Some(lower_seq(t)), ..sel }, true);
        }
    }
}

pub proof fn lemma_selectors_from(s: Seq<char>, p: int, acc: Seq<CssSelector>)
    requires
        0 <= p <= s.len(),
    ensures
        p <= selectors_from(s, p, acc).1 <= s.len(),
    decreases s.len() - p,
{
    lemma_skip_wsc(s, p);
    let p1 = skip_wsc(s, p);
    let c = nc(s, p1);
    if c == '\0' || c == '{' {
    } else if c == ',' {
        lemma_selectors_from(s, p1 + 1, acc);
    } else {
        let (parsed, p2) = simple_from(s, p1, empty_selector(), false);
        lemma_simple_from(s, p1, empty_selector(), false);
        lemma_skip_wsc(s, p2);
        let p3 = skip_wsc(s, p2);
        let c2 = nc(s, p3);
        lemma_scan(s, p3, Stop::EitherChar('{', ','));
        if parsed is Some && (c2 == ',' || c2 == '{' || c2 == '\0') {
            lemma_selectors_from(s, p3, acc.push(parsed.unwrap()));
        } else {
            lemma_selectors_from(s, scan(s, p3, Stop::EitherChar('{', ',')), acc);
        }
    }
}

pub proof fn lemma_rule(s: Seq<char>, p: int)
    requires
        0 <= p <= s.len(),
    ensures
        p <= rule(s, p).1 <= s.len(),
        p < s.len() && s[p] != '\0' && s[p] != '@' && ws_comment_step(s, p) == p ==> p < rule(s, p).1,
{
    lemma_selectors_from(s, p, Seq::empty());
    let p1 = selectors_from(s, p, Seq::empty()).1;
    lemma_declarations_from(s, p1, Seq::empty());
    if p < s.len() && s[p] != '\0' && s[p] != '@' && ws_comment_step(s, p) == p {
        assert(skip_wsc(s, p) == p);
        lemma_selectors_progress(s, p);
    }
}

proof fn lemma_selectors_progress(s: Seq<char>, p: int)
    requires
        0 <= p < s.len(),
        s[p] != '\0',
        skip_wsc(s, p) == p,
    ensures
        p < selectors_from(s, p, Seq::empty()).1,
{
    lemma_skip_wsc(s, p);
    let c = s[p];
    if c == '{' {
    } else if c == ',' {
        lemma_selectors_from(s, p + 1, Seq::empty());
    } else {
        let (parsed, p2) = simple_from(s, p, empty_selector(), false);
        lemma_simple_from(s, p, empty_selector(), false);
        lemma_skip_wsc(s, p2);
        let p3 = skip_wsc(s, p2);
        let c2 = nc(s, p3);
        lemma_scan(s, p3, Stop::EitherChar('{', ','));
        if parsed is Some && (c2 == ',' || c2 == '{' || c2 == '\0') {
            lemma_selectors_from(s, p3, seq![parsed.unwrap()]);
            assert(Seq::<CssSelector>::empty().push(parsed.unwrap()) == seq![parsed.unwrap()]);
        } else {
            let q = scan(s, p3, Stop::EitherChar('{', ','));
            lemma_selectors_from(s, q, Seq::empty());
        }
    }
}

pub proof fn lemma_skip_braces(s: Seq<char>, p: int, depth: int)
    requires
        0 <= p <= s.len(),
    ensures
        p <= skip_braces(s, p, depth) <= s.len(),
        p < s.len() ==> p < skip_braces(s, p, depth),
    decreases s.len() - p,
{
    if p < s.len() {
        if s[p] == '{' {
            lemma_skip_braces(s, p + 1, depth + 1);
        } else if s[p] == '}' {
            if depth - 1 != 0 {
                lemma_skip_braces(s, p + 1, depth - 1);
            }
        } else {
            lemma_skip_braces(s, p + 1, depth);
        }
    }
}

pub proof fn lemma_skip_at_rule(s: Seq<char>, p: int)
    requires
        0 <= p <= s.len(),
    ensures
        p <= skip_at_rule(s, p) <= s.len(),
        p < s.len() ==> p < skip_at_rule(s, p),
    decreases s.len() - p,
{
    if p < s.len() {
        if s[p] == '{' {
            lemma_skip_braces(s, p, 0);
        } else if s[p] != ';' {
            lemma_skip_at_rule(s, p + 1);
        }
    }
}


// --- Executable parser ---------------------------------------------------------------

proof fn lemma_insert_by_specificity(s: Seq<CssSelector>, x: CssSelector, i: int)
    requires
        0 <= i <= s.len(),
        forall|k: int| 0 <= k < i ==> !spec_lt(specificity_of(#[trigger] s[k]), specificity_of(x)),
        i < s.len() ==> spec_lt(specificity_of(s[i]), specificity_of(x)),
    ensures
        insert_by_specificity(s, x) == s.take(i) + seq![x] + s.skip(i),
    decreases i,
{
    if i == 0 {
        if s.len() == 0 {
            assert(s.take(0) + seq![x] + s.skip(0) =~= seq![x]);
        } else {
            assert(s.take(0) + seq![x] + s.skip(0) =~= seq![x] + s);
        }
    } else {
        assert forall|k: int| 0 <= k < i - 1 implies !spec_lt(specificity_of(#[trigger] s.drop_first()[k]), specificity_of(x)) by {
            assert(s.drop_first()[k] == s[k + 1]);
        }
        lemma_insert_by_specificity(s.drop_first(), x, i - 1);
        assert(s.take(i) + seq![x] + s.skip(i) =~= seq![s[0]] + (s.drop_first().take(i - 1) + seq![x] + s.drop_first().skip(i - 1)));
    }
}

/// Insert `x` into `sorted` after every selector at least as specific.
fn insert_selector(sorted: &mut Vec<Selector>, x: Selector)
    ensures
        final(sorted)@.map_values(|s: Selector| s@) == insert_by_specificity(
            old(sorted)@.map_values(|s: Selector| s@),
            x@,
        ),
{
    let ghost v = sorted@.map_values(|s: Selector| s@);
    let kx = x.specificity();
    let mut i: usize = 0;
    while i < sorted.len() && !specificity_less(sorted[i].specificity(), kx)
        invariant
            i <= sorted@.len(),
            v == sorted@.map_values(|s: Selector| s@),
            (kx.0 as nat, kx.1 as nat, kx.2 as nat) == specificity_of(x@),
            forall|k: int| 0 <= k < i ==> !spec_lt(specificity_of(#[trigger] v[k]), specificity_of(x@)),
        decreases sorted.len() - i,
    {
        assert(v[i as int] == sorted@[i as int]@);
        i += 1;
    }
    proof {
        if i < sorted@.len() {
            assert(v[i as int] == sorted@[i as int]@);
        }
        lemma_insert_by_specificity(v, x@, i as int);
    }
    let ghost xv = x@;
    sorted.insert(i, x);
    assert(sorted@.map_values(|s: Selector| s@) =~= v.take(i as int) + seq![xv] + v.skip(i as int));
}

fn named_color_exec(name: &Vec<char>) -> (r: Option<Color>)
    ensures
        r == named_color(name@),
{
    let n = lower_chars(name);
    if str_eq_chars("black", &n) {
        Some(Color::rgb(0, 0, 0))
    } else if str_eq_chars("white", &n) {
        Some(Color::rgb(255, 255, 255))
    } else if str_eq_chars("red", &n) {
        Some(Color::rgb(255, 0, 0))
    } else if str_eq_chars("green", &n) {
        Some(Color::rgb(0, 128, 0))
    } else if str_eq_chars("blue", &n) {
        Some(Color::rgb(0, 0, 255))
    } else if str_eq_chars("navy", &n) {
        Some(Color::rgb(0, 0, 128))
    } else if str_eq_chars("gray", &n) || str_eq_chars("grey", &n) {
        Some(Color::rgb(128, 128, 128))
    } else if str_eq_chars("silver", &n) {
        Some(Color::rgb(192, 192, 192))
    } else if str_eq_chars("lightgray", &n) || str_eq_chars("lightgrey", &n) {
        Some(Color::rgb(211, 211, 211))
    } else if str_eq_chars("darkgray", &n) || str_eq_chars("darkgrey", &n) {
        Some(Color::rgb(169, 169, 169))
    } else if str_eq_chars("whitesmoke", &n) {
        Some(Color::rgb(245, 245, 245))
    } else if str_eq_chars("gainsboro", &n) {
        Some(Color::rgb(220, 220, 220))
    } else if str_eq_chars("yellow", &n) {
        Some(Color::rgb(255, 255, 0))
    } else if str_eq_chars("orange", &n) {
        Some(Color::rgb(255, 165, 0))
    } else if str_eq_chars("purple", &n) {
        Some(Color::rgb(128, 0, 128))
    } else if str_eq_chars("teal", &n) {
        Some(Color::rgb(0, 128, 128))
    } else if str_eq_chars("maroon", &n) {
        Some(Color::rgb(128, 0, 0))
    } else if str_eq_chars("olive", &n) {
        Some(Color::rgb(128, 128, 0))
    } else if str_eq_chars("lime", &n) {
        Some(Color::rgb(0, 255, 0))
    } else if str_eq_chars("aqua", &n) || str_eq_chars("cyan", &n) {
        Some(Color::rgb(0, 255, 255))
    } else if str_eq_chars("fuchsia", &n) || str_eq_chars("magenta", &n) {
        Some(Color::rgb(255, 0, 255))
    } else if str_eq_chars("transparent", &n) {
        Some(Color::transparent())
    } else {
        None
    }
}

fn hex_value(c: char) -> (r: u8)
    requires
        is_hex_digit(c),
    ensures
        r == hex_val(c),
        r < 16,
{
    if ascii_digit(c) {
        ((c as u32) - ('0' as u32)) as u8
    } else if 'a' <= c && c <= 'f' {
        ((c as u32) - ('a' as u32) + 10) as u8
    } else {
        ((c as u32) - ('A' as u32) + 10) as u8
    }
}

fn hex_pair(a: char, b: char) -> (r: u8)
    requires
        is_hex_digit(a),
        is_hex_digit(b),
    ensures
        r == hex_byte(a, b),
{
    let x = hex_value(a);
    let y = hex_value(b);
    x * 16 + y
}

/// `#rgb`, `#rrggbb` or `#rrggbbaa` from the hex digits after the `#`.
fn parse_hex(h: &Vec<char>) -> (r: Option<Color>)
    requires
        forall|i: int| 0 <= i < h@.len() ==> is_hex_digit(#[trigger] h@[i]),
    ensures
        r == hex_color(h@),
{
    if h.len() == 3 {
        Some(Color::rgb(hex_pair(h[0], h[0]), hex_pair(h[1], h[1]), hex_pair(h[2], h[2])))
    } else if h.len() == 6 {
        Some(Color::rgb(hex_pair(h[0], h[1]), hex_pair(h[2], h[3]), hex_pair(h[4], h[5])))
    } else if h.len() == 8 {
        Some(
            Color {
                r: hex_pair(h[0], h[1]),
                g: hex_pair(h[2], h[3]),
                b: hex_pair(h[4], h[5]),
                a: hex_pair(h[6], h[7]),
            },
        )
    } else {
        None
    }
}

fn unit_exec(t: &Vec<char>) -> (r: Unit)
    ensures
        r == unit_of(t@),
{
    let l = lower_chars(t);
    if str_eq_chars("px", &l) || l.len() == 0 {
        Unit::Px
    } else if str_eq_chars("em", &l) {
        Unit::Em
    } else if str_eq_chars("rem", &l) {
        Unit::Rem
    } else if str_eq_chars("pt", &l) {
        Unit::Pt
    } else if str_eq_chars("%", &l) {
        Unit::Percent
    } else if str_eq_chars("vw", &l) {
        Unit::Vw
    } else if str_eq_chars("vh", &l) {
        Unit::Vh
    } else {
        Unit::Px
    }
}

/// Whether `t` is digits with at most one `.` and at least one digit.
fn decimal_body(t: &Vec<char>) -> (r: bool)
    ensures
        r == is_decimal_body(t@),
{
    if t.len() > 0 && (t[0] == '+' || t[0] == '-') {
        return false;
    }
    decimal(t)
}

/// Whether `t` is a number text (see [`is_float_text`]).
fn float_text(t: &Vec<char>) -> (r: bool)
    ensures
        r == is_float_text(t@),
{
    let start: usize = if t.len() > 0 && (t[0] == '+' || t[0] == '-') {
        1
    } else {
        0
    };
    let b = crate::chars::slice_chars(t, start, t.len());
    assert(b@ == (if t@.len() > 0 && (t@[0] == '+' || t@[0] == '-') {
        t@.drop_first()
    } else {
        t@
    }));
    let l = lower_chars(&b);
    if str_eq_chars("inf", &l) || str_eq_chars("infinity", &l) || str_eq_chars("nan", &l) {
        return true;
    }
    let k = scan_to(&l, 0, Stop::Char('e'));
    proof {
        lemma_scan(l@, 0, Stop::Char('e'));
    }
    let m = crate::chars::slice_chars(&l, 0, k);
    if !decimal_body(&m) {
        return false;
    }
    if k >= l.len() {
        return true;
    }
    let e = crate::chars::slice_chars(&l, k + 1, l.len());
    exponent(&e)
}

/// Whether `d` is one or more ASCII digits.
fn digits(d: &Vec<char>) -> (r: bool)
    ensures
        r == is_digits(d@),
{
    if d.len() == 0 {
        return false;
    }
    let mut i: usize = 0;
    while i < d.len()
        invariant
            i <= d@.len(),
            forall|j: int| 0 <= j < i ==> is_ascii_digit(#[trigger] d@[j]),
        decreases d.len() - i,
    {
        if !ascii_digit(d[i]) {
            return false;
        }
        i += 1;
    }
    true
}

/// Whether `e` is an optional sign and one or more digits.
fn exponent(e: &Vec<char>) -> (r: bool)
    ensures
        r == is_exponent(e@),
{
    if e.len() > 0 && (e[0] == '+' || e[0] == '-') {
        let rest = crate::chars::slice_chars(e, 1, e.len());
        assert(rest@ == e@.drop_first());
        digits(&rest)
    } else {
        digits(e)
    }
}

/// `t` without its trailing `%`s.
fn strip_percent_chars(t: &Vec<char>) -> (r: Vec<char>)
    ensures
        r@ == strip_percents(t@),
{
    let mut n = t.len();
    assert(t@.take(n as int) == t@);
    while n > 0 && t[n - 1] == '%'
        invariant
            n <= t@.len(),
            strip_percents(t@) == strip_percents(t@.take(n as int)),
        decreases n,
    {
        assert(t@.take(n as int).drop_last() == t@.take(n - 1));
        n -= 1;
    }
    assert(t@.take(n as int) == t@.subrange(0, n as int));
    crate::chars::slice_chars(t, 0, n)
}

/// Whether a piece of colour-function arguments is a number.
fn number_arg(t: &Vec<char>) -> (r: bool)
    ensures
        r == is_number_arg(t@),
{
    let tr = trim_chars(t);
    if tr.len() == 0 {
        return false;
    }
    let body = strip_percent_chars(&tr);
    float_text(&body)
}

proof fn lemma_count_numbers_concat(a: Seq<Seq<char>>, b: Seq<Seq<char>>)
    ensures
        count_numbers(a + b) == count_numbers(a) + count_numbers(b),
    decreases b.len(),
{
    if b.len() == 0 {
        assert(a + b == a);
    } else {
        lemma_count_numbers_concat(a, b.drop_last());
        assert((a + b).drop_last() == a + b.drop_last());
        assert((a + b).last() == b.last());
    }
}

proof fn lemma_count_numbers_one(t: Seq<char>)
    ensures
        count_numbers(seq![t]) == if is_number_arg(t) {
            1nat
        } else {
            0nat
        },
{
    assert(seq![t].drop_last() =~= Seq::<Seq<char>>::empty());
    assert(count_numbers(Seq::<Seq<char>>::empty()) == 0);
    assert(seq![t].last() == t);
}

/// Whether the argument text of a colour function holds at least three numbers.
fn three_numeric_args(args: &Vec<char>) -> (r: bool)
    ensures
        r == (numeric_arg_count(args@) >= 3),
{
    let mut count: usize = 0;
    let ghost mut done: nat = 0;
    let mut cur: Vec<char> = Vec::new();
    let mut i: usize = 0;
    assert(args@.skip(0) == args@);
    while i < args.len()
        invariant
            i <= args@.len(),
            count == (if done < 3 { done } else { 3 }),
            done + count_numbers(split_args(args@.skip(i as int), cur@)) == numeric_arg_count(args@),
        decreases args.len() - i,
    {
        let c = args[i];
        assert(args@.skip(i as int)[0] == c);
        assert(args@.skip(i as int).drop_first() == args@.skip(i + 1));
        if c == ',' || c == ' ' || c == '/' {
            proof {
                lemma_count_numbers_concat(seq![cur@], split_args(args@.skip(i + 1), Seq::empty()));
                lemma_count_numbers_one(cur@);
            }
            if number_arg(&cur) {
                if count < 3 {
                    count += 1;
                }
                proof {
                    done = done + 1;
                }
            }
            cur = Vec::new();
            assert(cur@ == Seq::<char>::empty());
        } else {
            cur.push(c);
        }
        i += 1;
    }
    proof {
        assert(args@.skip(i as int).len() == 0);
        lemma_count_numbers_one(cur@);
    }
    if number_arg(&cur) {
        if count < 3 {
            count += 1;
        }
        proof {
            done = done + 1;
        }
    }
    count >= 3
}

struct Parser {
    input: Vec<char>,
    pos: usize,
}

impl Parser {
    fn next_char(&self) -> (c: char)
        ensures
            c == nc(self.input@, self.pos as int),
    {
        if self.pos < self.input.len() {
            self.input[self.pos]
        } else {
            '\0'
        }
    }

    /// Advance past the current character.
    fn bump(&mut self)
        ensures
            final(self).input == old(self).input,
            final(self).pos == if old(self).pos < old(self).input@.len() {
                old(self).pos + 1
            } else {
                old(self).pos as int
            },
    {
        if self.pos < self.input.len() {
            self.pos += 1;
        }
    }

    fn eof(&self) -> (r: bool)
        ensures
            r == (self.pos >= self.input@.len()),
    {
        self.pos >= self.input.len()
    }

    fn skip_ws_and_comments(&mut self)
        requires
            old(self).pos <= old(self).input@.len(),
        ensures
            final(self).input == old(self).input,
            final(self).pos == skip_wsc(old(self).input@, old(self).pos as int),
    {
        let ghost s = self.input@;
        let ghost goal = skip_wsc(s, self.pos as int);
        let open = vec2('/', '*');
        let close = vec2('*', '/');
        loop
            invariant
                self.input == old(self).input,
                s == self.input@,
                self.pos <= s.len(),
                goal == skip_wsc(old(self).input@, old(self).pos as int),
                skip_wsc(s, self.pos as int) == goal,
                open@ == seq!['/', '*'],
                close@ == seq!['*', '/'],
            decreases s.len() - self.pos,
        {
            let before = self.pos;
            proof {
                lemma_ws_comment_step(s, before as int);
            }
            self.pos = scan_to(&self.input, self.pos, Stop::NotUnicodeWs);
            if chars_at(&self.input, self.pos, &open) {
                let e = find_chars(&self.input, self.pos, &close);
                if e < self.input.len() {
                    proof {
                        lemma_find_has(s, self.pos as int, seq!['*', '/']);
                    }
                    self.pos = e + 2;
                } else {
                    self.pos = self.input.len();
                }
            }
            assert(self.pos == ws_comment_step(s, before as int));
            if self.pos == before {
                return;
            }
        }
    }

    fn skip_until_any(&mut self, a: char, b: char)
        requires
            old(self).pos <= old(self).input@.len(),
        ensures
            final(self).input == old(self).input,
            final(self).pos == scan(old(self).input@, old(self).pos as int, Stop::EitherChar(a, b)),
            final(self).pos <= old(self).input@.len(),
    {
        self.pos = scan_to(&self.input, self.pos, Stop::EitherChar(a, b));
    }

    fn parse_identifier(&mut self) -> (r: Vec<char>)
        requires
            old(self).pos <= old(self).input@.len(),
        ensures
            final(self).input == old(self).input,
            r@ == ident(old(self).input@, old(self).pos as int).0,
            final(self).pos == ident(old(self).input@, old(self).pos as int).1,
            old(self).pos <= final(self).pos <= old(self).input@.len(),
    {
        let start = self.pos;
        self.pos = scan_to(&self.input, self.pos, Stop::IdentEnd);
        crate::chars::slice_chars(&self.input, start, self.pos)
    }

    fn parse_length(&mut self) -> (r: Option<Value>)
        requires
            old(self).pos <= old(self).input@.len(),
        ensures
            final(self).input == old(self).input,
            match r {
                Some(v) => length(old(self).input@, old(self).pos as int).0 == Some(v@),
                None => length(old(self).input@, old(self).pos as int).0 is None,
            },
            final(self).pos == length(old(self).input@, old(self).pos as int).1,
    {
        let start = self.pos;
        let e = scan_to(&self.input, self.pos, Stop::NumberEnd);
        self.pos = e;
        let num = crate::chars::slice_chars(&self.input, start, e);
        if !decimal(&num) {
            return None;
        }
        let n = Number { text: string_of(&num) };
        if self.next_char() == '%' {
            self.bump();
            return Some(Value::Length(n, Unit::Percent));
        }
        let u = self.parse_identifier();
        Some(Value::Length(n, unit_exec(&u)))
    }

    fn parse_color_function(&mut self, word: &Vec<char>) -> (r: Option<Value>)
        requires
            old(self).pos <= old(self).input@.len(),
        ensures
            final(self).input == old(self).input,
            match r {
                Some(v) => color_function(word@, old(self).input@, old(self).pos as int).0 == Some(v@),
                None => color_function(word@, old(self).input@, old(self).pos as int).0 is None,
            },
            final(self).pos == color_function(word@, old(self).input@, old(self).pos as int).1,
    {
        let f = lower_chars(word);
        if !(str_eq_chars("rgb", &f) || str_eq_chars("rgba", &f) || str_eq_chars("hsl", &f)
            || str_eq_chars("hsla", &f)) {
            return None;
        }
        if self.pos >= self.input.len() || self.next_char() != '(' {
            return None;
        }
        let start = self.pos + 1;
        let e = scan_to(&self.input, start, Stop::Char(')'));
        if e >= self.input.len() {
            return None;
        }
        self.pos = e + 1;
        let args = crate::chars::slice_chars(&self.input, start, e);
        if three_numeric_args(&args) {
            Some(Value::ColorFunction(string_of(&f), string_of(&args)))
        } else {
            Some(Value::Keyword(string_of(&f)))
        }
    }

    fn parse_value(&mut self) -> (r: Option<Value>)
        requires
            old(self).pos <= old(self).input@.len(),
        ensures
            final(self).input == old(self).input,
            match r {
                Some(v) => value(old(self).input@, old(self).pos as int).0 == Some(v@),
                None => value(old(self).input@, old(self).pos as int).0 is None,
            },
            final(self).pos == value(old(self).input@, old(self).pos as int).1,
    {
        let ghost s = self.input@;
        let c = self.next_char();
        if c == '#' {
            self.bump();
            let start = self.pos;
            let e = scan_to(&self.input, self.pos, Stop::NotHexDigit);
            proof {
                lemma_scan(s, start as int, Stop::NotHexDigit);
            }
            self.pos = e;
            let hex = crate::chars::slice_chars(&self.input, start, e);
            match parse_hex(&hex) {
                Some(col) => Some(Value::ColorValue(col)),
                None => None,
            }
        } else if ascii_digit(c) || c == '-' || c == '.' || c == '+' {
            self.parse_length()
        } else {
            let start = self.pos;
            let e = scan_to(&self.input, self.pos, Stop::WordEnd);
            self.pos = e;
            let word = crate::chars::slice_chars(&self.input, start, e);
            if word.len() == 0 {
                return None;
            }
            match self.parse_color_function(&word) {
                Some(v) => Some(v),
                None => match named_color_exec(&word) {
                    Some(col) => Some(Value::ColorValue(col)),
                    None => Some(Value::Keyword(string_of(&lower_chars(&word)))),
                },
            }
        }
    }

    fn parse_declaration(&mut self) -> (r: Option<Declaration>)
        requires
            old(self).pos <= old(self).input@.len(),
        ensures
            final(self).input == old(self).input,
            match r {
                Some(d) => declaration(old(self).input@, old(self).pos as int).0 == Some(d@),
                None => declaration(old(self).input@, old(self).pos as int).0 is None,
            },
            final(self).pos == declaration(old(self).input@, old(self).pos as int).1,
    {
        let ghost s = self.input@;
        let n0 = self.parse_identifier();
        let name = lower_chars(&n0);
        proof {
            lemma_skip_wsc(s, self.pos as int);
        }
        self.skip_ws_and_comments();
        if self.next_char() != ':' {
            return None;
        }
        self.bump();
        proof {
            lemma_skip_wsc(s, self.pos as int);
        }
        self.skip_ws_and_comments();
        proof {
            lemma_value(s, self.pos as int);
        }
        let v = match self.parse_value() {
            Some(v) => v,
            None => return None,
        };
        self.skip_until_any(';', '}');
        if name.len() == 0 {
            None
        } else {
            Some(Declaration { name: string_of(&name), value: v })
        }
    }

    fn parse_declarations_until_end(&mut self) -> (r: Vec<Declaration>)
        requires
            old(self).pos <= old(self).input@.len(),
        ensures
            final(self).input == old(self).input,
            r@.map_values(|d: Declaration| d@) == declarations_from(
                old(self).input@,
                old(self).pos as int,
                Seq::empty(),
            ).0,
            final(self).pos == declarations_from(old(self).input@, old(self).pos as int, Seq::empty()).1,
    {
        let ghost s = self.input@;
        let ghost goal = declarations_from(s, self.pos as int, Seq::empty());
        let mut declarations: Vec<Declaration> = Vec::new();
        assert(declarations@.map_values(|d: Declaration| d@) =~= Seq::<CssDeclaration>::empty());
        loop
            invariant
                self.input == old(self).input,
                s == self.input@,
                self.pos <= s.len(),
                goal == declarations_from(s, old(self).pos as int, Seq::empty()),
                declarations_from(s, self.pos as int, declarations@.map_values(|d: Declaration| d@)) == goal,
            decreases s.len() - self.pos,
        {
            let ghost p = self.pos as int;
            proof {
                lemma_skip_wsc(s, p);
            }
            self.skip_ws_and_comments();
            let c = self.next_char();
            if c == '}' || c == '\0' {
                return declarations;
            } else if c == ';' {
                self.bump();
            } else {
                proof {
                    lemma_declaration(s, self.pos as int);
                }
                match self.parse_declaration() {
                    Some(d) => {
                        let ghost before = declarations@;
                        declarations.push(d);
                        assert(declarations@.map_values(|d: Declaration| d@) =~= before.map_values(|d: Declaration| d@).push(d@));
                    },
                    None => self.skip_until_any(';', '}'),
                }
            }
        }
    }

    fn parse_declarations_block(&mut self) -> (r: Vec<Declaration>)
        requires
            old(self).pos <= old(self).input@.len(),
        ensures
            final(self).input == old(self).input,
            r@.map_values(|d: Declaration| d@) == declaration_block(old(self).input@, old(self).pos as int).0,
            final(self).pos == declaration_block(old(self).input@, old(self).pos as int).1,
    {
        proof {
            lemma_declarations_from(self.input@, self.pos as int, Seq::empty());
        }
        let decls = self.parse_declarations_until_end();
        if self.next_char() == '}' {
            self.bump();
        }
        decls
    }

    fn parse_simple_selector(&mut self) -> (r: Option<SimpleSelector>)
        requires
            old(self).pos <= old(self).input@.len(),
        ensures
            final(self).input == old(self).input,
            match r {
                Some(sel) => simple_from(old(self).input@, old(self).pos as int, empty_selector(), false).0 == Some(sel@),
                None => simple_from(old(self).input@, old(self).pos as int, empty_selector(), false).0 is None,
            },
            final(self).pos == simple_from(old(self).input@, old(self).pos as int, empty_selector(), false).1,
    {
        let ghost s = self.input@;
        let ghost goal = simple_from(s, self.pos as int, empty_selector(), false);
        let mut selector = SimpleSelector { tag_name: None, id: None, classes: Vec::new() };
        assert(selector@.classes =~= Seq::<Seq<char>>::empty());
        let mut matched_something = false;
        loop
            invariant
                self.input == old(self).input,
                s == self.input@,
                self.pos <= s.len(),
                goal == simple_from(s, old(self).pos as int, empty_selector(), false),
                simple_from(s, self.pos as int, selector@, matched_something) == goal,
            ensures
                self.input == old(self).input,
                goal == (if matched_something {
                    Some(selector@)
                } else {
                    None
                }, self.pos as int),
            decreases s.len() - self.pos,
        {
            let c = self.next_char();
            if self.pos >= self.input.len() {
                break;
            } else if c == '#' {
                self.bump();
                proof {
                    lemma_scan(s, self.pos as int, Stop::IdentEnd);
                }
                let id = self.parse_identifier();
                selector.id = Some(string_of(&id));
                matched_something = true;
            } else if c == '.' {
                self.bump();
                proof {
                    lemma_scan(s, self.pos as int, Stop::IdentEnd);
                }
                let cls = self.parse_identifier();
                let ghost before = selector@.classes;
                selector.classes.push(string_of(&cls));
                assert(selector@.classes =~= before.push(cls@));
                matched_something = true;
            } else if c == '*' {
                self.bump();
                matched_something = true;
            } else if crate::chars::ascii_alnum(c) || c == '-' || c == '_' {
                proof {
                    lemma_scan(s, self.pos as int, Stop::IdentEnd);
                }
                let t = self.parse_identifier();
                selector.tag_name = Some(string_of(&lower_chars(&t)));
                matched_something = true;
            } else {
                break;
            }
        }
        if matched_something {
            Some(selector)
        } else {
            None
        }
    }

    /// Parse a comma-separated selector list, stopping past `{`; the result
    /// is sorted highest specificity first.
    fn parse_selectors(&mut self) -> (r: Vec<Selector>)
        requires
            old(self).pos <= old(self).input@.len(),
        ensures
            final(self).input == old(self).input,
            r@.map_values(|s: Selector| s@) == selectors(old(self).input@, old(self).pos as int).0,
            final(self).pos == selectors(old(self).input@, old(self).pos as int).1,
    {
        let ghost s = self.input@;
        let ghost goal = selectors_from(s, self.pos as int, Seq::empty());
        let ghost mut acc: Seq<CssSelector> = Seq::empty();
        let mut sorted: Vec<Selector> = Vec::new();
        assert(sorted@.map_values(|x: Selector| x@) =~= sort_by_specificity(acc));
        loop
            invariant_except_break
                selectors_from(s, self.pos as int, acc) == goal,
            invariant
                self.input == old(self).input,
                s == self.input@,
                self.pos <= s.len(),
                goal == selectors_from(s, old(self).pos as int, Seq::empty()),
                sorted@.map_values(|x: Selector| x@) == sort_by_specificity(acc),
            ensures
                self.input == old(self).input,
                goal == (acc, self.pos as int),
                sorted@.map_values(|x: Selector| x@) == sort_by_specificity(acc),
            decreases s.len() - self.pos,
        {
            let ghost p = self.pos as int;
            proof {
                lemma_skip_wsc(s, p);
            }
            self.skip_ws_and_comments();
            let c = self.next_char();
            if c == '{' {
                self.bump();
                break;
            } else if c == ',' {
                self.bump();
            } else if c == '\0' {
                break;
            } else {
                let ghost p1 = self.pos as int;
                proof {
                    lemma_simple_from(s, p1, empty_selector(), false);
                }
                let parsed = self.parse_simple_selector();
                proof {
                    lemma_skip_wsc(s, self.pos as int);
                }
                self.skip_ws_and_comments();
                let c2 = self.next_char();
                proof {
                    lemma_scan(s, self.pos as int, Stop::EitherChar('{', ','));
                }
                match parsed {
                    Some(sel) => {
                        if c2 == ',' || c2 == '{' || c2 == '\0' {
                            let ghost x = sel@;
                            insert_selector(&mut sorted, Selector::Simple(sel));
                            proof {
                                assert(acc.push(x).drop_last() == acc);
                                acc = acc.push(x);
                            }
                        } else {
                            self.skip_until_any('{', ',');
                        }
                    },
                    None => self.skip_until_any('{', ','),
                }
            }
        }
        sorted
    }

    fn parse_rule(&mut self) -> (r: Option<Rule>)
        requires
            old(self).pos <= old(self).input@.len(),
        ensures
            final(self).input == old(self).input,
            match r {
                Some(rl) => rule(old(self).input@, old(self).pos as int).0 == Some(rl@),
                None => rule(old(self).input@, old(self).pos as int).0 is None,
            },
            final(self).pos == rule(old(self).input@, old(self).pos as int).1,
    {
        proof {
            lemma_selectors_from(self.input@, self.pos as int, Seq::empty());
        }
        let selectors = self.parse_selectors();
        let declarations = self.parse_declarations_block();
        if selectors.len() == 0 {
            None
        } else {
            Some(Rule { selectors, declarations })
        }
    }

    fn skip_balanced_braces(&mut self)
        requires
            old(self).pos < old(self).input@.len(),
            old(self).input@[old(self).pos as int] == '{',
        ensures
            final(self).input == old(self).input,
            final(self).pos == skip_braces(old(self).input@, old(self).pos as int, 0),
    {
        let ghost s = self.input@;
        let ghost start = self.pos as int;
        let ghost goal = skip_braces(s, start, 0);
        let n = self.input.len();
        let mut depth: usize = 0;
        while !self.eof()
            invariant
                self.input == old(self).input,
                s == self.input@,
                n == s.len(),
                start == old(self).pos,
                start <= self.pos <= s.len(),
                depth <= self.pos - start,
                self.pos > start ==> depth >= 1,
                self.pos == start ==> depth == 0 && s[start] == '{',
                goal == skip_braces(s, start, 0),
                skip_braces(s, self.pos as int, depth as int) == goal,
            decreases s.len() - self.pos,
        {
            let c = self.next_char();
            if c == '{' {
                depth += 1;
            } else if c == '}' {
                if depth == 1 {
                    self.bump();
                    return;
                }
                depth -= 1;
            }
            self.bump();
        }
    }

    /// Skip an at-rule: up to and past its `;`, or past its `{ .. }` block.
    fn skip_at_rule(&mut self)
        requires
            old(self).pos <= old(self).input@.len(),
        ensures
            final(self).input == old(self).input,
            final(self).pos == skip_at_rule(old(self).input@, old(self).pos as int),
    {
        let ghost s = self.input@;
        let ghost goal = skip_at_rule(s, self.pos as int);
        while !self.eof()
            invariant
                self.input == old(self).input,
                s == self.input@,
                self.pos <= s.len(),
                goal == skip_at_rule(old(self).input@, old(self).pos as int),
                skip_at_rule(s, self.pos as int) == goal,
            decreases s.len() - self.pos,
        {
            let c = self.next_char();
            if c == ';' {
                self.bump();
                return;
            } else if c == '{' {
                self.skip_balanced_braces();
                return;
            }
            self.bump();
        }
    }

    fn parse_rules(&mut self) -> (r: Vec<Rule>)
        requires
            old(self).pos <= old(self).input@.len(),
        ensures
            r@.map_values(|x: Rule| x@) == rules_from(old(self).input@, old(self).pos as int),
    {
        let ghost s = self.input@;
        let ghost g = rules_from(s, self.pos as int);
        let ghost mut done: Seq<CssRule> = Seq::empty();
        let mut rules: Vec<Rule> = Vec::new();
        assert(rules@.map_values(|x: Rule| x@) =~= done);
        assert(done + g =~= g);
        loop
            invariant
                self.input == old(self).input,
                s == self.input@,
                self.pos <= s.len(),
                g == rules_from(s, old(self).pos as int),
                rules@.map_values(|x: Rule| x@) == done,
                done + rules_from(s, self.pos as int) == g,
            decreases s.len() - self.pos,
        {
            let ghost p = self.pos as int;
            proof {
                lemma_skip_wsc(s, p);
            }
            self.skip_ws_and_comments();
            let p1 = self.pos;
            if self.eof() {
                assert(rules_from(s, p) == Seq::<CssRule>::empty());
                assert(done + Seq::<CssRule>::empty() =~= done);
                return rules;
            }
            if self.next_char() == '@' {
                proof {
                    lemma_skip_at_rule(s, p1 as int);
                }
                self.skip_at_rule();
                assert(rules_from(s, p) == rules_from(s, self.pos as int));
            } else {
                proof {
                    lemma_rule(s, p1 as int);
                }
                let r = self.parse_rule();
                if self.pos <= p1 {
                    self.pos = p1;
                    self.bump();
                    assert(rules_from(s, p) == rules_from(s, self.pos as int));
                } else {
                    match r {
                        Some(rl) => {
                            let ghost before = rules@;
                            let ghost rv = rl@;
                            rules.push(rl);
                            proof {
                                let rest = rules_from(s, self.pos as int);
                                assert(rules_from(s, p) == seq![rv] + rest);
                                assert(rules@.map_values(|x: Rule| x@) =~= before.map_values(|x: Rule| x@).push(rv));
                                assert(done.push(rv) + rest =~= done + (seq![rv] + rest));
                                done = done.push(rv);
                            }
                        },
                        None => {
                            assert(rules_from(s, p) == rules_from(s, self.pos as int));
                        },
                    }
                }
            }
        }
    }
}

/// Parse a whole stylesheet. Parsing never gives up: at-rules are skipped
/// whole, and what cannot start a rule is skipped a character at a time.
pub fn parse(source: &str) -> (r: Stylesheet)
    ensures
        r@ == css_rules(source@),
{
    let mut parser = Parser { input: chars_of(source), pos: 0 };
    Stylesheet { rules: parser.parse_rules() }
}

/// Parse a single declaration block (the contents of a `style="..."` attribute).
pub fn parse_declarations(source: &str) -> (r: Vec<Declaration>)
    ensures
        r@.map_values(|d: Declaration| d@) == css_declarations(source@),
{
    let mut parser = Parser { input: chars_of(source), pos: 0 };
    parser.parse_declarations_until_end()
}


// --- Laws of the parser --------------------------------------------------------------

/// Selectors in non-increasing order of specificity.
pub open spec fn sorted_by_specificity(sels: Seq<CssSelector>) -> bool {
    forall|i: int, j: int|
        0 <= i < j < sels.len() ==> !spec_lt(specificity_of(#[trigger] sels[i]), specificity_of(#[trigger] sels[j]))
}

proof fn lemma_insert_sorted(sorted: Seq<CssSelector>, x: CssSelector)
    requires
        sorted_by_specificity(sorted),
    ensures
        sorted_by_specificity(insert_by_specificity(sorted, x)),
        insert_by_specificity(sorted, x).len() == sorted.len() + 1,
        forall|k: int| 0 <= k < insert_by_specificity(sorted, x).len() ==> {
            let y = #[trigger] insert_by_specificity(sorted, x)[k];
            y == x || exists|j: int| 0 <= j < sorted.len() && sorted[j] == y
        },
    decreases sorted.len(),
{
    let r = insert_by_specificity(sorted, x);
    if sorted.len() == 0 {
    } else if spec_lt(specificity_of(sorted[0]), specificity_of(x)) {
        assert forall|k: int| 0 <= k < r.len() implies {
            let y = #[trigger] r[k];
            y == x || exists|j: int| 0 <= j < sorted.len() && sorted[j] == y
        } by {
            if k > 0 {
                assert(r[k] == sorted[k - 1]);
            }
        }
        assert forall|i: int, j: int| 0 <= i < j < r.len() implies !spec_lt(
            specificity_of(#[trigger] r[i]),
            specificity_of(#[trigger] r[j]),
        ) by {
            assert(r[j] == sorted[j - 1]);
            if i > 0 {
                assert(r[i] == sorted[i - 1]);
            } else if j - 1 > 0 {
                assert(!spec_lt(specificity_of(sorted[0]), specificity_of(sorted[j - 1])));
            }
        }
    } else {
        let rest = sorted.drop_first();
        assert(sorted_by_specificity(rest)) by {
            assert forall|i: int, j: int| 0 <= i < j < rest.len() implies !spec_lt(
                specificity_of(#[trigger] rest[i]),
                specificity_of(#[trigger] rest[j]),
            ) by {
                assert(rest[i] == sorted[i + 1] && rest[j] == sorted[j + 1]);
            }
        }
        lemma_insert_sorted(rest, x);
        let t = insert_by_specificity(rest, x);
        assert(r == seq![sorted[0]] + t);
        assert forall|k: int| 0 <= k < r.len() implies {
            let y = #[trigger] r[k];
            y == x || exists|j: int| 0 <= j < sorted.len() && sorted[j] == y
        } by {
            if k > 0 {
                assert(r[k] == t[k - 1]);
                let y = t[k - 1];
                if y != x {
                    let j = choose|j: int| 0 <= j < rest.len() && rest[j] == y;
                    assert(sorted[j + 1] == y);
                }
            } else {
                assert(sorted[0] == r[0]);
            }
        }
        assert forall|i: int, j: int| 0 <= i < j < r.len() implies !spec_lt(
            specificity_of(#[trigger] r[i]),
            specificity_of(#[trigger] r[j]),
        ) by {
            assert(r[j] == t[j - 1]);
            if i > 0 {
                assert(r[i] == t[i - 1]);
            } else {
                let y = t[j - 1];
                if y != x {
                    let m = choose|m: int| 0 <= m < rest.len() && rest[m] == y;
                    assert(sorted[m + 1] == y);
                    assert(!spec_lt(specificity_of(sorted[0]), specificity_of(sorted[m + 1])));
                }
            }
        }
    }
}

proof fn lemma_sort_sorted(s: Seq<CssSelector>)
    ensures
        sorted_by_specificity(sort_by_specificity(s)),
        sort_by_specificity(s).len() == s.len(),
    decreases s.len(),
{
    if s.len() > 0 {
        lemma_sort_sorted(s.drop_last());
        lemma_insert_sorted(sort_by_specificity(s.drop_last()), s.last());
    }
}

proof fn lemma_chars_differ(a: Seq<char>, b: Seq<char>, i: int)
    requires
        0 <= i < a.len(),
        i < b.len(),
        a[i] != b[i],
    ensures
        a != b,
{
}

/// The named colours map to their CSS values, whatever the ASCII case of the
/// name: `black` is rgb(0, 0, 0), `white` is rgb(255, 255, 255), and so on;
/// no other word names a colour.
pub proof fn named_colors_have_their_css_values(w: Seq<char>)
    ensures
        lower_seq(w) == "black"@ ==> named_color(w) == Some(Color { r: 0, g: 0, b: 0, a: 255 }),
        lower_seq(w) == "white"@ ==> named_color(w) == Some(Color { r: 255, g: 255, b: 255, a: 255 }),
        lower_seq(w) == "red"@ ==> named_color(w) == Some(Color { r: 255, g: 0, b: 0, a: 255 }),
        lower_seq(w) == "green"@ ==> named_color(w) == Some(Color { r: 0, g: 128, b: 0, a: 255 }),
        lower_seq(w) == "blue"@ ==> named_color(w) == Some(Color { r: 0, g: 0, b: 255, a: 255 }),
        lower_seq(w) == "navy"@ ==> named_color(w) == Some(Color { r: 0, g: 0, b: 128, a: 255 }),
        lower_seq(w) == "gray"@ ==> named_color(w) == Some(Color { r: 128, g: 128, b: 128, a: 255 }),
        lower_seq(w) == "grey"@ ==> named_color(w) == Some(Color { r: 128, g: 128, b: 128, a: 255 }),
        lower_seq(w) == "silver"@ ==> named_color(w) == Some(Color { r: 192, g: 192, b: 192, a: 255 }),
        lower_seq(w) == "lightgray"@ ==> named_color(w) == Some(Color { r: 211, g: 211, b: 211, a: 255 }),
        lower_seq(w) == "lightgrey"@ ==> named_color(w) == Some(Color { r: 211, g: 211, b: 211, a: 255 }),
        lower_seq(w) == "darkgray"@ ==> named_color(w) == Some(Color { r: 169, g: 169, b: 169, a: 255 }),
        lower_seq(w) == "darkgrey"@ ==> named_color(w) == Some(Color { r: 169, g: 169, b: 169, a: 255 }),
        lower_seq(w) == "whitesmoke"@ ==> named_color(w) == Some(Color { r: 245, g: 245, b: 245, a: 255 }),
        lower_seq(w) == "gainsboro"@ ==> named_color(w) == Some(Color { r: 220, g: 220, b: 220, a: 255 }),
        lower_seq(w) == "yellow"@ ==> named_color(w) == Some(Color { r: 255, g: 255, b: 0, a: 255 }),
        lower_seq(w) == "orange"@ ==> named_color(w) == Some(Color { r: 255, g: 165, b: 0, a: 255 }),
        lower_seq(w) == "purple"@ ==> named_color(w) == Some(Color { r: 128, g: 0, b: 128, a: 255 }),
        lower_seq(w) == "teal"@ ==> named_color(w) == Some(Color { r: 0, g: 128, b: 128, a: 255 }),
        lower_seq(w) == "maroon"@ ==> named_color(w) == Some(Color { r: 128, g: 0, b: 0, a: 255 }),
        lower_seq(w) == "olive"@ ==> named_color(w) == Some(Color { r: 128, g: 128, b: 0, a: 255 }),
        lower_seq(w) == "lime"@ ==> named_color(w) == Some(Color { r: 0, g: 255, b: 0, a: 255 }),
        lower_seq(w) == "aqua"@ ==> named_color(w) == Some(Color { r: 0, g: 255, b: 255, a: 255 }),
        lower_seq(w) == "cyan"@ ==> named_color(w) == Some(Color { r: 0, g: 255, b: 255, a: 255 }),
        lower_seq(w) == "fuchsia"@ ==> named_color(w) == Some(Color { r: 255, g: 0, b: 255, a: 255 }),
        lower_seq(w) == "magenta"@ ==> named_color(w) == Some(Color { r: 255, g: 0, b: 255, a: 255 }),
        lower_seq(w) == "transparent"@ ==> named_color(w) == Some(Color { r: 0, g: 0, b: 0, a: 0 }),
        !(lower_seq(w) == "black"@ || lower_seq(w) == "white"@ || lower_seq(w) == "red"@ || lower_seq(w) == "green"@ || lower_seq(w) == "blue"@ || lower_seq(w) == "navy"@ || lower_seq(w) == "gray"@ || lower_seq(w) == "grey"@ || lower_seq(w) == "silver"@ || lower_seq(w) == "lightgray"@ || lower_seq(w) == "lightgrey"@ || lower_seq(w) == "darkgray"@ || lower_seq(w) == "darkgrey"@ || lower_seq(w) == "whitesmoke"@ || lower_seq(w) == "gainsboro"@ || lower_seq(w) == "yellow"@ || lower_seq(w) == "orange"@ || lower_seq(w) == "purple"@ || lower_seq(w) == "teal"@ || lower_seq(w) == "maroon"@ || lower_seq(w) == "olive"@ || lower_seq(w) == "lime"@ || lower_seq(w) == "aqua"@ || lower_seq(w) == "cyan"@ || lower_seq(w) == "fuchsia"@ || lower_seq(w) == "magenta"@ || lower_seq(w) == "transparent"@) ==> named_color(w) is None,
{
    reveal_strlit("black");
    reveal_strlit("white");
    reveal_strlit("red");
    reveal_strlit("green");
    reveal_strlit("blue");
    reveal_strlit("navy");
    reveal_strlit("gray");
    reveal_strlit("grey");
    reveal_strlit("silver");
    reveal_strlit("lightgray");
    reveal_strlit("lightgrey");
    reveal_strlit("darkgray");
    reveal_strlit("darkgrey");
    reveal_strlit("whitesmoke");
    reveal_strlit("gainsboro");
    reveal_strlit("yellow");
    reveal_strlit("orange");
    reveal_strlit("purple");
    reveal_strlit("teal");
    reveal_strlit("maroon");
    reveal_strlit("olive");
    reveal_strlit("lime");
    reveal_strlit("aqua");
    reveal_strlit("cyan");
    reveal_strlit("fuchsia");
    reveal_strlit("magenta");
    reveal_strlit("transparent");
    assert("black"@.len() == 5);
    assert("white"@.len() == 5);
    assert("red"@.len() == 3);
    assert("green"@.len() == 5);
    assert("blue"@.len() == 4);
    assert("navy"@.len() == 4);
    assert("gray"@.len() == 4);
    assert("grey"@.len() == 4);
    assert("silver"@.len() == 6);
    assert("lightgray"@.len() == 9);
    assert("lightgrey"@.len() == 9);
    assert("darkgray"@.len() == 8);
    assert("darkgrey"@.len() == 8);
    assert("whitesmoke"@.len() == 10);
    assert("gainsboro"@.len() == 9);
    assert("yellow"@.len() == 6);
    assert("orange"@.len() == 6);
    assert("purple"@.len() == 6);
    assert("teal"@.len() == 4);
    assert("maroon"@.len() == 6);
    assert("olive"@.len() == 5);
    assert("lime"@.len() == 4);
    assert("aqua"@.len() == 4);
    assert("cyan"@.len() == 4);
    assert("fuchsia"@.len() == 7);
    assert("magenta"@.len() == 7);
    assert("transparent"@.len() == 11);
    lemma_chars_differ("white"@, "black"@, 0);
    lemma_chars_differ("green"@, "black"@, 0);
    lemma_chars_differ("green"@, "white"@, 0);
    lemma_chars_differ("navy"@, "blue"@, 0);
    lemma_chars_differ("gray"@, "blue"@, 0);
    lemma_chars_differ("gray"@, "navy"@, 0);
    lemma_chars_differ("grey"@, "blue"@, 0);
    lemma_chars_differ("grey"@, "navy"@, 0);
    lemma_chars_differ("grey"@, "gray"@, 2);
    lemma_chars_differ("lightgrey"@, "lightgray"@, 7);
    lemma_chars_differ("darkgrey"@, "darkgray"@, 6);
    lemma_chars_differ("gainsboro"@, "lightgray"@, 0);
    lemma_chars_differ("gainsboro"@, "lightgrey"@, 0);
    lemma_chars_differ("yellow"@, "silver"@, 0);
    lemma_chars_differ("orange"@, "silver"@, 0);
    lemma_chars_differ("orange"@, "yellow"@, 0);
    lemma_chars_differ("purple"@, "silver"@, 0);
    lemma_chars_differ("purple"@, "yellow"@, 0);
    lemma_chars_differ("purple"@, "orange"@, 0);
    lemma_chars_differ("teal"@, "blue"@, 0);
    lemma_chars_differ("teal"@, "navy"@, 0);
    lemma_chars_differ("teal"@, "gray"@, 0);
    lemma_chars_differ("teal"@, "grey"@, 0);
    lemma_chars_differ("maroon"@, "silver"@, 0);
    lemma_chars_differ("maroon"@, "yellow"@, 0);
    lemma_chars_differ("maroon"@, "orange"@, 0);
    lemma_chars_differ("maroon"@, "purple"@, 0);
    lemma_chars_differ("olive"@, "black"@, 0);
    lemma_chars_differ("olive"@, "white"@, 0);
    lemma_chars_differ("olive"@, "green"@, 0);
    lemma_chars_differ("lime"@, "blue"@, 0);
    lemma_chars_differ("lime"@, "navy"@, 0);
    lemma_chars_differ("lime"@, "gray"@, 0);
    lemma_chars_differ("lime"@, "grey"@, 0);
    lemma_chars_differ("lime"@, "teal"@, 0);
    lemma_chars_differ("aqua"@, "blue"@, 0);
    lemma_chars_differ("aqua"@, "navy"@, 0);
    lemma_chars_differ("aqua"@, "gray"@, 0);
    lemma_chars_differ("aqua"@, "grey"@, 0);
    lemma_chars_differ("aqua"@, "teal"@, 0);
    lemma_chars_differ("aqua"@, "lime"@, 0);
    lemma_chars_differ("cyan"@, "blue"@, 0);
    lemma_chars_differ("cyan"@, "navy"@, 0);
    lemma_chars_differ("cyan"@, "gray"@, 0);
    lemma_chars_differ("cyan"@, "grey"@, 0);
    lemma_chars_differ("cyan"@, "teal"@, 0);
    lemma_chars_differ("cyan"@, "lime"@, 0);
    lemma_chars_differ("cyan"@, "aqua"@, 0);
    lemma_chars_differ("magenta"@, "fuchsia"@, 0);
}

/// A word in a value that names a colour is read as that colour.
pub proof fn named_color_words_are_colors(s: Seq<char>, p: int)
    ensures
        ({
            let c = nc(s, p);
            let e = scan(s, p, Stop::WordEnd);
            let w = s.subrange(p, e);
            c != '#' && !(is_ascii_digit(c) || c == '-' || c == '.' || c == '+') && named_color(w) is Some
                ==> value(s, p).0 == Some(CssValue::Color(named_color(w).unwrap()))
        }),
{
    let e = scan(s, p, Stop::WordEnd);
    let w = s.subrange(p, e);
    named_colors_have_their_css_values(w);
    reveal_strlit("black");
    reveal_strlit("white");
    reveal_strlit("red");
    reveal_strlit("green");
    reveal_strlit("blue");
    reveal_strlit("navy");
    reveal_strlit("gray");
    reveal_strlit("grey");
    reveal_strlit("silver");
    reveal_strlit("lightgray");
    reveal_strlit("lightgrey");
    reveal_strlit("darkgray");
    reveal_strlit("darkgrey");
    reveal_strlit("whitesmoke");
    reveal_strlit("gainsboro");
    reveal_strlit("yellow");
    reveal_strlit("orange");
    reveal_strlit("purple");
    reveal_strlit("teal");
    reveal_strlit("maroon");
    reveal_strlit("olive");
    reveal_strlit("lime");
    reveal_strlit("aqua");
    reveal_strlit("cyan");
    reveal_strlit("fuchsia");
    reveal_strlit("magenta");
    reveal_strlit("transparent");
    reveal_strlit("rgb");
    reveal_strlit("rgba");
    reveal_strlit("hsl");
    reveal_strlit("hsla");
    assert("black"@.len() == 5);
    assert("white"@.len() == 5);
    assert("red"@.len() == 3);
    assert("green"@.len() == 5);
    assert("blue"@.len() == 4);
    assert("navy"@.len() == 4);
    assert("gray"@.len() == 4);
    assert("grey"@.len() == 4);
    assert("silver"@.len() == 6);
    assert("lightgray"@.len() == 9);
    assert("lightgrey"@.len() == 9);
    assert("darkgray"@.len() == 8);
    assert("darkgrey"@.len() == 8);
    assert("whitesmoke"@.len() == 10);
    assert("gainsboro"@.len() == 9);
    assert("yellow"@.len() == 6);
    assert("orange"@.len() == 6);
    assert("purple"@.len() == 6);
    assert("teal"@.len() == 4);
    assert("maroon"@.len() == 6);
    assert("olive"@.len() == 5);
    assert("lime"@.len() == 4);
    assert("aqua"@.len() == 4);
    assert("cyan"@.len() == 4);
    assert("fuchsia"@.len() == 7);
    assert("magenta"@.len() == 7);
    assert("transparent"@.len() == 11);
    assert("rgb"@.len() == 3);
    assert("rgba"@.len() == 4);
    assert("hsl"@.len() == 3);
    assert("hsla"@.len() == 4);
    lemma_chars_differ("white"@, "black"@, 0);
    lemma_chars_differ("green"@, "black"@, 0);
    lemma_chars_differ("green"@, "white"@, 0);
    lemma_chars_differ("navy"@, "blue"@, 0);
    lemma_chars_differ("gray"@, "blue"@, 0);
    lemma_chars_differ("gray"@, "navy"@, 0);
    lemma_chars_differ("grey"@, "blue"@, 0);
    lemma_chars_differ("grey"@, "navy"@, 0);
    lemma_chars_differ("grey"@, "gray"@, 2);
    lemma_chars_differ("lightgrey"@, "lightgray"@, 7);
    lemma_chars_differ("darkgrey"@, "darkgray"@, 6);
    lemma_chars_differ("gainsboro"@, "lightgray"@, 0);
    lemma_chars_differ("gainsboro"@, "lightgrey"@, 0);
    lemma_chars_differ("yellow"@, "silver"@, 0);
    lemma_chars_differ("orange"@, "silver"@, 0);
    lemma_chars_differ("orange"@, "yellow"@, 0);
    lemma_chars_differ("purple"@, "silver"@, 0);
    lemma_chars_differ("purple"@, "yellow"@, 0);
    lemma_chars_differ("purple"@, "orange"@, 0);
    lemma_chars_differ("teal"@, "blue"@, 0);
    lemma_chars_differ("teal"@, "navy"@, 0);
    lemma_chars_differ("teal"@, "gray"@, 0);
    lemma_chars_differ("teal"@, "grey"@, 0);
    lemma_chars_differ("maroon"@, "silver"@, 0);
    lemma_chars_differ("maroon"@, "yellow"@, 0);
    lemma_chars_differ("maroon"@, "orange"@, 0);
    lemma_chars_differ("maroon"@, "purple"@, 0);
    lemma_chars_differ("olive"@, "black"@, 0);
    lemma_chars_differ("olive"@, "white"@, 0);
    lemma_chars_differ("olive"@, "green"@, 0);
    lemma_chars_differ("lime"@, "blue"@, 0);
    lemma_chars_differ("lime"@, "navy"@, 0);
    lemma_chars_differ("lime"@, "gray"@, 0);
    lemma_chars_differ("lime"@, "grey"@, 0);
    lemma_chars_differ("lime"@, "teal"@, 0);
    lemma_chars_differ("aqua"@, "blue"@, 0);
    lemma_chars_differ("aqua"@, "navy"@, 0);
    lemma_chars_differ("aqua"@, "gray"@, 0);
    lemma_chars_differ("aqua"@, "grey"@, 0);
    lemma_chars_differ("aqua"@, "teal"@, 0);
    lemma_chars_differ("aqua"@, "lime"@, 0);
    lemma_chars_differ("cyan"@, "blue"@, 0);
    lemma_chars_differ("cyan"@, "navy"@, 0);
    lemma_chars_differ("cyan"@, "gray"@, 0);
    lemma_chars_differ("cyan"@, "grey"@, 0);
    lemma_chars_differ("cyan"@, "teal"@, 0);
    lemma_chars_differ("cyan"@, "lime"@, 0);
    lemma_chars_differ("cyan"@, "aqua"@, 0);
    lemma_chars_differ("magenta"@, "fuchsia"@, 0);
    lemma_chars_differ("rgb"@, "red"@, 1);
    lemma_chars_differ("rgba"@, "blue"@, 0);
    lemma_chars_differ("rgba"@, "navy"@, 0);
    lemma_chars_differ("rgba"@, "gray"@, 0);
    lemma_chars_differ("rgba"@, "grey"@, 0);
    lemma_chars_differ("rgba"@, "teal"@, 0);
    lemma_chars_differ("rgba"@, "lime"@, 0);
    lemma_chars_differ("rgba"@, "aqua"@, 0);
    lemma_chars_differ("rgba"@, "cyan"@, 0);
    lemma_chars_differ("hsl"@, "red"@, 0);
    lemma_chars_differ("hsl"@, "rgb"@, 0);
    lemma_chars_differ("hsla"@, "blue"@, 0);
    lemma_chars_differ("hsla"@, "navy"@, 0);
    lemma_chars_differ("hsla"@, "gray"@, 0);
    lemma_chars_differ("hsla"@, "grey"@, 0);
    lemma_chars_differ("hsla"@, "teal"@, 0);
    lemma_chars_differ("hsla"@, "lime"@, 0);
    lemma_chars_differ("hsla"@, "aqua"@, 0);
    lemma_chars_differ("hsla"@, "cyan"@, 0);
    lemma_chars_differ("hsla"@, "rgba"@, 0);
}

/// A selector whose tag name, if it has one, is lower case.
pub open spec fn tag_lower(sel: CssSelector) -> bool {
    sel.tag matches Some(t) ==> lower_seq(t) == t
}

proof fn lemma_simple_tag_lower(s: Seq<char>, p: int, sel: CssSelector, matched: bool)
    requires
        tag_lower(sel),
    ensures
        simple_from(s, p, sel, matched).0 matches Some(x) ==> tag_lower(x),
    decreases s.len() - p,
{
    if 0 <= p < s.len() {
        let c = s[p];
        if c == '#' || c == '.' {
            lemma_scan(s, p + 1, Stop::IdentEnd);
            let (name, p2) = ident(s, p + 1);
            if c == '#' {
                lemma_simple_tag_lower(s, p2, CssSelector { id: Some(name), ..sel }, true);
            } else {
                lemma_simple_tag_lower(s, p2, CssSelector { classes: sel.classes.push(name), ..sel }, true);
            }
        } else if c == '*' {
            lemma_simple_tag_lower(s, p + 1, sel, true);
        } else if is_ident_char(c) {
            lemma_scan(s, p, Stop::IdentEnd);
            let (t, p2) = ident(s, p);
            lemma_lower_idempotent(t);
            lemma_simple_tag_lower(s, p2, CssSelector { tag: Some(lower_seq(t)), ..sel }, true);
        }
    }
}

proof fn lemma_selectors_tag_lower(s: Seq<char>, p: int, acc: Seq<CssSelector>)
    requires
        forall|i: int| 0 <= i < acc.len() ==> tag_lower(#[trigger] acc[i]),
    ensures
        forall|i: int| 0 <= i < selectors_from(s, p, acc).0.len() ==> tag_lower(
            #[trigger] selectors_from(s, p, acc).0[i],
        ),
    decreases s.len() - p,
{
    if 0 <= p <= s.len() {
        lemma_skip_wsc(s, p);
        let p1 = skip_wsc(s, p);
        let c = nc(s, p1);
        if c == '\0' || c == '{' {
            assert(selectors_from(s, p, acc).0 == acc);
        } else if c == ',' {
            lemma_selectors_tag_lower(s, p1 + 1, acc);
            assert(selectors_from(s, p, acc) == selectors_from(s, p1 + 1, acc));
        } else {
            let (parsed, p2) = simple_from(s, p1, empty_selector(), false);
            lemma_simple_from(s, p1, empty_selector(), false);
            assert(tag_lower(empty_selector()));
            lemma_simple_tag_lower(s, p1, empty_selector(), false);
            lemma_skip_wsc(s, p2);
            let p3 = skip_wsc(s, p2);
            let c2 = nc(s, p3);
            lemma_scan(s, p3, Stop::EitherChar('{', ','));
            if parsed is Some && (c2 == ',' || c2 == '{' || c2 == '\0') {
                let acc2 = acc.push(parsed.unwrap());
                assert forall|i: int| 0 <= i < acc2.len() implies tag_lower(#[trigger] acc2[i]) by {
                    if i < acc.len() {
                        assert(acc2[i] == acc[i]);
                    }
                }
                lemma_selectors_tag_lower(s, p3, acc2);
                assert(selectors_from(s, p, acc) == selectors_from(s, p3, acc2));
            } else {
                lemma_selectors_tag_lower(s, scan(s, p3, Stop::EitherChar('{', ',')), acc);
                assert(selectors_from(s, p, acc) == selectors_from(s, scan(s, p3, Stop::EitherChar('{', ',')), acc));
            }
        }
    }
}

proof fn lemma_sort_tag_lower(s: Seq<CssSelector>)
    requires
        forall|i: int| 0 <= i < s.len() ==> tag_lower(#[trigger] s[i]),
    ensures
        forall|i: int| 0 <= i < sort_by_specificity(s).len() ==> tag_lower(
            #[trigger] sort_by_specificity(s)[i],
        ),
    decreases s.len(),
{
    if s.len() > 0 {
        let d = s.drop_last();
        assert forall|i: int| 0 <= i < d.len() implies tag_lower(#[trigger] d[i]) by {
            assert(d[i] == s[i]);
        }
        lemma_sort_tag_lower(d);
        lemma_sort_sorted(d);
        let sd = sort_by_specificity(d);
        lemma_insert_sorted(sd, s.last());
        let r = insert_by_specificity(sd, s.last());
        assert forall|i: int| 0 <= i < r.len() implies tag_lower(#[trigger] r[i]) by {
            let y = r[i];
            if y != s.last() {
                let j = choose|j: int| 0 <= j < sd.len() && sd[j] == y;
                assert(tag_lower(sd[j]));
            }
        }
    }
}

/// The selectors of a rule, read from any position: most specific first, and
/// every tag name lower case.
pub proof fn parsed_selectors_are_sorted_and_lower_case(s: Seq<char>, p: int)
    ensures
        sorted_by_specificity(selectors(s, p).0),
        forall|i: int| 0 <= i < selectors(s, p).0.len() ==> tag_lower(#[trigger] selectors(s, p).0[i]),
{
    let sels = selectors_from(s, p, Seq::empty()).0;
    lemma_sort_sorted(sels);
    lemma_selectors_tag_lower(s, p, Seq::empty());
    lemma_sort_tag_lower(sels);
}

/// A declaration as the parser produces it: a non-empty, lower-case name.
pub open spec fn declaration_ok(d: CssDeclaration) -> bool {
    d.name.len() > 0 && lower_seq(d.name) == d.name
}

/// A rule as the parser produces it: at least one selector, the selectors
/// most specific first, and well-formed declarations.
pub open spec fn rule_ok(r: CssRule) -> bool {
    &&& r.selectors.len() > 0
    &&& sorted_by_specificity(r.selectors)
    &&& forall|i: int| 0 <= i < r.declarations.len() ==> declaration_ok(#[trigger] r.declarations[i])
}

proof fn lemma_lower_idempotent(t: Seq<char>)
    ensures
        lower_seq(lower_seq(t)) == lower_seq(t),
{
    assert forall|i: int| 0 <= i < t.len() implies lower(lower(t[i])) == lower(t[i]) by {
        let c = t[i];
        if 'A' <= c && c <= 'Z' {
            assert(lower(c) as u32 == c as u32 + 32);
        }
    }
    assert(lower_seq(lower_seq(t)) =~= lower_seq(t));
}

proof fn lemma_declarations_ok(s: Seq<char>, p: int, acc: Seq<CssDeclaration>)
    requires
        0 <= p <= s.len(),
        forall|i: int| 0 <= i < acc.len() ==> declaration_ok(#[trigger] acc[i]),
    ensures
        forall|i: int|
            0 <= i < declarations_from(s, p, acc).0.len() ==> declaration_ok(
                #[trigger] declarations_from(s, p, acc).0[i],
            ),
    decreases s.len() - p,
{
    lemma_skip_wsc(s, p);
    let p1 = skip_wsc(s, p);
    let c = nc(s, p1);
    if c == '}' || c == '\0' {
        assert(declarations_from(s, p, acc).0 == acc);
    } else if c == ';' {
        lemma_declarations_ok(s, p1 + 1, acc);
        assert(declarations_from(s, p, acc) == declarations_from(s, p1 + 1, acc));
    } else {
        lemma_declaration(s, p1);
        let (d, p2) = declaration(s, p1);
        if d is Some {
            assert(declarations_from(s, p, acc) == declarations_from(s, p2, acc.push(d.unwrap())));
            lemma_lower_idempotent(ident(s, p1).0);
            let acc2 = acc.push(d.unwrap());
            assert forall|i: int| 0 <= i < acc2.len() implies declaration_ok(#[trigger] acc2[i]) by {
                if i < acc.len() {
                    assert(acc2[i] == acc[i]);
                }
            }
            lemma_declarations_ok(s, p2, acc2);
        } else {
            assert(declarations_from(s, p, acc) == declarations_from(
                s,
                scan(s, p2, Stop::EitherChar(';', '}')),
                acc,
            ));
            lemma_declarations_ok(s, scan(s, p2, Stop::EitherChar(';', '}')), acc);
        }
    }
}

proof fn lemma_rules_ok(s: Seq<char>, p: int)
    requires
        0 <= p <= s.len(),
    ensures
        forall|i: int| 0 <= i < rules_from(s, p).len() ==> rule_ok(#[trigger] rules_from(s, p)[i]),
    decreases s.len() - p,
{
    lemma_skip_wsc(s, p);
    let p1 = skip_wsc(s, p);
    if p1 < s.len() {
        if s[p1] == '@' {
            lemma_skip_at_rule(s, p1);
            lemma_rules_ok(s, skip_at_rule(s, p1));
            assert(rules_from(s, p) == rules_from(s, skip_at_rule(s, p1)));
        } else {
            lemma_rule(s, p1);
            let (r, p2) = rule(s, p1);
            if p2 > p1 {
                lemma_rules_ok(s, p2);
                if r is Some {
                    let (sels, q1) = selectors(s, p1);
                    lemma_selectors_from(s, p1, Seq::empty());
                    lemma_sort_sorted(selectors_from(s, p1, Seq::empty()).0);
                    lemma_declarations_ok(s, q1, Seq::empty());
                    let all = rules_from(s, p);
                    let rest = rules_from(s, p2);
                    assert(all == seq![r.unwrap()] + rest);
                    assert forall|i: int| 0 <= i < all.len() implies rule_ok(#[trigger] all[i]) by {
                        if i > 0 {
                            assert(all[i] == rest[i - 1]);
                        }
                    }
                } else {
                    assert(rules_from(s, p) == rules_from(s, p2));
                }
            } else {
                lemma_rules_ok(s, p1 + 1);
                assert(rules_from(s, p) == rules_from(s, p1 + 1));
            }
        }
    }
}

/// Every rule the parser produces has at least one selector, lists its
/// selectors most specific first, and has declarations with non-empty,
/// lower-case property names.
pub proof fn parsed_rules_are_well_formed(s: Seq<char>)
    ensures
        forall|i: int| 0 <= i < css_rules(s).len() ==> rule_ok(#[trigger] css_rules(s)[i]),
{
    lemma_rules_ok(s, 0);
}

/// The declarations of a `style` attribute have non-empty, lower-case names.
pub proof fn parsed_declarations_are_well_formed(s: Seq<char>)
    ensures
        forall|i: int| 0 <= i < css_declarations(s).len() ==> declaration_ok(#[trigger] css_declarations(s)[i]),
{
    lemma_declarations_ok(s, 0, Seq::empty());
}

} // verus!
