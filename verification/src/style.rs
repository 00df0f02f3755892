//! Style: turning the DOM and CSS into a styled tree (the cascade).
//!
//! For every element the final value of each property comes from, in order:
//! the values inherited from the parent, the legacy presentational attributes
//! (`bgcolor`, `width`, `height`), every matching rule sorted by specificity
//! (user-agent rules before author rules, so authors win ties), and last the
//! inline `style="..."` attribute. Text and comment nodes carry their parent's
//! inheritable values. The result, a [`StyledNode`], has the DOM's shape with
//! a flat map of property values on each node.
use vstd::prelude::*;
use vstd::string::StringExecFns;
use crate::chars::{chars_of, is_hex_digit, hex_digit, trim, trim_chars, string_of};
use crate::css::{
    self, CssDeclaration, CssRule, CssSelector, CssValue, Declaration, Rule, Selector,
    SimpleSelector, Specificity, Stylesheet, Value, specificity_of, spec_lt, specificity_less,
    css_declarations, css_rules,
};
use crate::dom::{
    DomElement, DomKind, DomNode, ElementData, Node, NodeType, attr_lookup, words, tag_of,
    nodes_view, lemma_nodes_view, inner_text_of,
};

verus! {

// --- Property maps ---------------------------------------------------------------

/// The map written by a list of (name, value) entries whose names are distinct.
pub open spec fn entries_map(s: Seq<(Seq<char>, CssValue)>) -> Map<Seq<char>, CssValue> {
    Map::new(
        |k: Seq<char>| exists|i: int| 0 <= i < s.len() && s[i].0 == k,
        |k: Seq<char>| s[choose|i: int| 0 <= i < s.len() && s[i].0 == k].1,
    )
}

/// No name occurs twice.
pub open spec fn distinct_keys(s: Seq<(Seq<char>, CssValue)>) -> bool {
    forall|i: int, j: int| 0 <= i < s.len() && 0 <= j < s.len() && i != j ==> s[i].0 != s[j].0
}

proof fn lemma_entries_at(s: Seq<(Seq<char>, CssValue)>, i: int)
    requires
        distinct_keys(s),
        0 <= i < s.len(),
    ensures
        entries_map(s).contains_key(s[i].0),
        entries_map(s)[s[i].0] == s[i].1,
{
    let k = s[i].0;
    assert(exists|j: int| 0 <= j < s.len() && s[j].0 == k);
    let j = choose|j: int| 0 <= j < s.len() && s[j].0 == k;
    assert(j == i);
}

proof fn lemma_entries_push(s: Seq<(Seq<char>, CssValue)>, k: Seq<char>, v: CssValue)
    requires
        distinct_keys(s),
        forall|i: int| 0 <= i < s.len() ==> s[i].0 != k,
    ensures
        distinct_keys(s.push((k, v))),
        entries_map(s.push((k, v))) == entries_map(s).insert(k, v),
{
    let t = s.push((k, v));
    assert forall|x: Seq<char>| #[trigger] entries_map(t).contains_key(x) == entries_map(
        s,
    ).insert(k, v).contains_key(x) by {
        if entries_map(s).contains_key(x) {
            let i = choose|i: int| 0 <= i < s.len() && s[i].0 == x;
            assert(t[i].0 == x);
        }
        if entries_map(t).contains_key(x) && x != k {
            let i = choose|i: int| 0 <= i < t.len() && t[i].0 == x;
            assert(s[i].0 == x);
        }
        if x == k {
            assert(t[s.len() as int].0 == x);
        }
    }
    assert forall|x: Seq<char>| #[trigger] entries_map(t).contains_key(x) implies entries_map(t)[x]
        == entries_map(s).insert(k, v)[x] by {
        let i = choose|i: int| 0 <= i < t.len() && t[i].0 == x;
        lemma_entries_at(t, i);
        if i < s.len() {
            lemma_entries_at(s, i);
        }
    }
    assert(entries_map(t) =~= entries_map(s).insert(k, v));
}

proof fn lemma_entries_update(s: Seq<(Seq<char>, CssValue)>, i: int, v: CssValue)
    requires
        distinct_keys(s),
        0 <= i < s.len(),
    ensures
        distinct_keys(s.update(i, (s[i].0, v))),
        entries_map(s.update(i, (s[i].0, v))) == entries_map(s).insert(s[i].0, v),
{
    let k = s[i].0;
    let t = s.update(i, (k, v));
    assert forall|x: Seq<char>| #[trigger] entries_map(t).contains_key(x) == entries_map(
        s,
    ).insert(k, v).contains_key(x) by {
        if entries_map(s).contains_key(x) {
            let j = choose|j: int| 0 <= j < s.len() && s[j].0 == x;
            assert(t[j].0 == x);
        }
        if entries_map(t).contains_key(x) {
            let j = choose|j: int| 0 <= j < t.len() && t[j].0 == x;
            assert(s[j].0 == x);
        }
    }
    assert forall|x: Seq<char>| #[trigger] entries_map(t).contains_key(x) implies entries_map(t)[x]
        == entries_map(s).insert(k, v)[x] by {
        let j = choose|j: int| 0 <= j < t.len() && t[j].0 == x;
        lemma_entries_at(t, j);
        if j != i {
            lemma_entries_at(s, j);
        }
    }
    assert(entries_map(t) =~= entries_map(s).insert(k, v));
}

/// A node's resolved property values, keyed by lower-case property name.
#[derive(Debug)]
pub struct PropertyMap {
    entries: Vec<(String, Value)>,
}

impl PropertyMap {
    /// The entries as (name, value) models.
    pub closed spec fn pairs(self) -> Seq<(Seq<char>, CssValue)> {
        self.entries@.map_values(|e: (String, Value)| (e.0@, e.1@))
    }

    #[verifier::type_invariant]
    closed spec fn inv(self) -> bool {
        distinct_keys(self.pairs())
    }
}

impl View for PropertyMap {
    type V = Map<Seq<char>, CssValue>;

    closed spec fn view(&self) -> Map<Seq<char>, CssValue> {
        entries_map(self.pairs())
    }
}

impl PropertyMap {
    /// An empty map.
    pub fn new() -> (r: PropertyMap)
        ensures
            r@ == Map::<Seq<char>, CssValue>::empty(),
    {
        let r = PropertyMap { entries: Vec::new() };
        assert(r.pairs() =~= Seq::<(Seq<char>, CssValue)>::empty());
        assert(r@ =~= Map::<Seq<char>, CssValue>::empty());
        r
    }

    /// The value stored under `name`.
    pub fn get(&self, name: &str) -> (r: Option<&Value>)
        ensures
            match r {
                Some(v) => self@.contains_key(name@) && self@[name@] == v@,
                None => !self@.contains_key(name@),
            },
    {
        proof {
            use_type_invariant(self);
        }
        let key = String::from_str(name);
        let ghost s = self.pairs();
        let mut i: usize = 0;
        while i < self.entries.len()
            invariant
                s == self.pairs(),
                distinct_keys(s),
                key@ == name@,
                i <= self.entries@.len(),
                forall|j: int| 0 <= j < i ==> s[j].0 != name@,
            decreases self.entries.len() - i,
        {
            assert(s[i as int] == (self.entries@[i as int].0@, self.entries@[i as int].1@));
            if self.entries[i].0 == key {
                proof {
                    lemma_entries_at(s, i as int);
                }
                return Some(&self.entries[i].1);
            }
            i += 1;
        }
        assert(!self@.contains_key(name@));
        None
    }

    /// Set `name` to `value`, replacing any earlier value (`HashMap::insert`).
    pub fn insert(&mut self, name: String, value: Value)
        ensures
            final(self)@ == old(self)@.insert(name@, value@),
    {
        let mut taken = PropertyMap::new();
        core::mem::swap(self, &mut taken);
        proof {
            use_type_invariant(&taken);
        }
        let ghost s = taken.pairs();
        let PropertyMap { entries: mut entries } = taken;
        let mut i: usize = 0;
        while i < entries.len()
            invariant
                s == entries@.map_values(|e: (String, Value)| (e.0@, e.1@)),
                entries_map(s) == old(self)@,
                distinct_keys(s),
                i <= entries@.len(),
                forall|j: int| 0 <= j < i ==> s[j].0 != name@,
            decreases entries.len() - i,
        {
            assert(s[i as int] == (entries@[i as int].0@, entries@[i as int].1@));
            if entries[i].0 == name {
                let ghost nv = value@;
                proof {
                    lemma_entries_update(s, i as int, nv);
                }
                entries.set(i, (name, value));
                assert(s.update(i as int, (s[i as int].0, nv)) =~= entries@.map_values(
                    |e: (String, Value)| (e.0@, e.1@),
                ));
                *self = PropertyMap { entries };
                return ;
            }
            i += 1;
        }
        let ghost nv = value@;
        let ghost nk = name@;
        proof {
            lemma_entries_push(s, nk, nv);
        }
        entries.push((name, value));
        assert(s.push((nk, nv)) =~= entries@.map_values(|e: (String, Value)| (e.0@, e.1@)));
        *self = PropertyMap { entries };
    }

    /// A copy of the map.
    pub fn copy(&self) -> (r: PropertyMap)
        ensures
            r@ == self@,
    {
        proof {
            use_type_invariant(self);
        }
        let mut entries: Vec<(String, Value)> = Vec::new();
        let mut i: usize = 0;
        while i < self.entries.len()
            invariant
                i <= self.entries@.len(),
                entries@.map_values(|e: (String, Value)| (e.0@, e.1@)) == self.pairs().take(
                    i as int,
                ),
            decreases self.entries.len() - i,
        {
            let ghost before = entries@.map_values(|e: (String, Value)| (e.0@, e.1@));
            let k = self.entries[i].0.clone();
            let v = self.entries[i].1.copy();
            entries.push((k, v));
            assert(self.pairs()[i as int] == (self.entries@[i as int].0@, self.entries@[i as int].1@));
            assert(entries@.map_values(|e: (String, Value)| (e.0@, e.1@)) =~= before.push((k@, v@)));
            assert(self.pairs().take(i + 1) =~= self.pairs().take(i as int).push(self.pairs()[i as int]));
            assert(entries@.map_values(|e: (String, Value)| (e.0@, e.1@)) =~= self.pairs().take(
                i + 1,
            ));
            i += 1;
        }
        assert(self.pairs().take(i as int) =~= self.pairs());
        PropertyMap { entries }
    }
}


// --- The cascade, as a model ---------------------------------------------------------

/// A specificity as natural numbers.
pub open spec fn spec3(k: Specificity) -> (nat, nat, nat) {
    (k.0 as nat, k.1 as nat, k.2 as nat)
}

/// The class names on an element.
pub open spec fn class_set(e: DomElement) -> Set<Seq<char>> {
    match attr_lookup(e.attributes, "class"@) {
        Some(v) => words(v).to_set(),
        None => Set::empty(),
    }
}

/// Whether a simple selector matches an element: its tag (if any) is the
/// element's, its id (if any) is the element's `id`, and each of its classes is
/// on the element.
pub open spec fn selector_matches(e: DomElement, s: CssSelector) -> bool {
    &&& (s.tag matches Some(t) ==> t == e.tag_name)
    &&& (s.id matches Some(i) ==> attr_lookup(e.attributes, "id"@) == Some(i))
    &&& forall|k: int| 0 <= k < s.classes.len() ==> class_set(e).contains(#[trigger] s.classes[k])
}

/// The highest specificity among the selectors that match `e`.
pub open spec fn best_match(e: DomElement, sels: Seq<CssSelector>) -> Option<(nat, nat, nat)>
    decreases sels.len(),
{
    if sels.len() == 0 {
        None
    } else {
        let rest = best_match(e, sels.drop_last());
        let k = specificity_of(sels.last());
        if !selector_matches(e, sels.last()) {
            rest
        } else {
            match rest {
                Some(b) => if spec_lt(k, b) {
                    Some(b)
                } else {
                    Some(k)
                },
                None => Some(k),
            }
        }
    }
}

/// The rules that match `e`, in order, each with its best specificity.
pub open spec fn matched_rules(e: DomElement, rules: Seq<CssRule>) -> Seq<((nat, nat, nat), CssRule)>
    decreases rules.len(),
{
    if rules.len() == 0 {
        Seq::empty()
    } else {
        let rest = matched_rules(e, rules.drop_last());
        match best_match(e, rules.last().selectors) {
            Some(k) => rest.push((k, rules.last())),
            None => rest,
        }
    }
}

/// Insert `x` before the first entry of strictly higher specificity.
pub open spec fn insert_ascending(
    sorted: Seq<((nat, nat, nat), CssRule)>,
    x: ((nat, nat, nat), CssRule),
) -> Seq<((nat, nat, nat), CssRule)>
    decreases sorted.len(),
{
    if sorted.len() == 0 {
        seq![x]
    } else if spec_lt(x.0, sorted[0].0) {
        seq![x] + sorted
    } else {
        seq![sorted[0]] + insert_ascending(sorted.drop_first(), x)
    }
}

/// A stable sort by ascending specificity.
pub open spec fn sort_ascending(s: Seq<((nat, nat, nat), CssRule)>) -> Seq<((nat, nat, nat), CssRule)>
    decreases s.len(),
{
    if s.len() == 0 {
        Seq::empty()
    } else {
        insert_ascending(sort_ascending(s.drop_last()), s.last())
    }
}

/// `m` after each declaration is written in turn.
pub open spec fn apply_decls(m: Map<Seq<char>, CssValue>, ds: Seq<CssDeclaration>) -> Map<
    Seq<char>,
    CssValue,
>
    decreases ds.len(),
{
    if ds.len() == 0 {
        m
    } else {
        apply_decls(m, ds.drop_last()).insert(ds.last().name, ds.last().value)
    }
}

/// `m` after the declarations of each rule are written in turn.
pub open spec fn apply_rules(m: Map<Seq<char>, CssValue>, rs: Seq<((nat, nat, nat), CssRule)>) -> Map<
    Seq<char>,
    CssValue,
>
    decreases rs.len(),
{
    if rs.len() == 0 {
        m
    } else {
        apply_decls(apply_rules(m, rs.drop_last()), rs.last().1.declarations)
    }
}

/// `bgcolor="ff6600"` (no `#`) is valid in old HTML; CSS needs the hash.
pub open spec fn normalized_color(raw: Seq<char>) -> Seq<char> {
    let t = trim(raw);
    if t.len() > 0 && t[0] != '#' && t.len() <= 6 && (forall|i: int|
        0 <= i < t.len() ==> is_hex_digit(#[trigger] t[i])) {
        seq!['#'] + t
    } else {
        t
    }
}

/// `m` after the declaration text `prop: raw` (when there is a `raw`).
pub open spec fn apply_hint(m: Map<Seq<char>, CssValue>, prop: Seq<char>, raw: Option<Seq<char>>) -> Map<
    Seq<char>,
    CssValue,
> {
    match raw {
        Some(r) => apply_decls(m, css_declarations(prop + ": "@ + r)),
        None => m,
    }
}

/// `m` after the presentational attributes `bgcolor`, `width` and `height`.
pub open spec fn presentational_hints(e: DomElement, m: Map<Seq<char>, CssValue>) -> Map<
    Seq<char>,
    CssValue,
> {
    let bg = match attr_lookup(e.attributes, "bgcolor"@) {
        Some(b) => Some(normalized_color(b)),
        None => None,
    };
    let m1 = apply_hint(m, "background-color"@, bg);
    let m2 = apply_hint(m1, "width"@, attr_lookup(e.attributes, "width"@));
    apply_hint(m2, "height"@, attr_lookup(e.attributes, "height"@))
}

/// The declarations of the element's `style` attribute.
pub open spec fn inline_decls(e: DomElement) -> Seq<CssDeclaration> {
    match attr_lookup(e.attributes, "style"@) {
        Some(st) => css_declarations(st),
        None => Seq::empty(),
    }
}

/// An element's values: the inherited ones, then the presentational hints,
/// then the matching rules (user-agent rules first) by ascending specificity,
/// then the inline style.
pub open spec fn specified(
    e: DomElement,
    ua: Seq<CssRule>,
    author: Seq<CssRule>,
    inherited: Map<Seq<char>, CssValue>,
) -> Map<Seq<char>, CssValue> {
    let hinted = presentational_hints(e, inherited);
    let ruled = apply_rules(hinted, sort_ascending(matched_rules(e, ua + author)));
    apply_decls(ruled, inline_decls(e))
}

/// The properties that pass from parent to child unless overridden.
pub open spec fn inherited_property_names() -> Seq<Seq<char>> {
    seq![
        "color"@,
        "font-size"@,
        "font-weight"@,
        "font-style"@,
        "font-family"@,
        "line-height"@,
        "text-align"@,
        "white-space"@,
        "list-style-type"@,
        "visibility"@,
    ]
}

pub open spec fn is_inherited_property(k: Seq<char>) -> bool {
    inherited_property_names().contains(k)
}

/// The part of `m` that children inherit.
pub open spec fn inheritable(m: Map<Seq<char>, CssValue>) -> Map<Seq<char>, CssValue> {
    Map::new(|k: Seq<char>| m.contains_key(k) && is_inherited_property(k), |k: Seq<char>| m[k])
}

/// The model of a styled node: the DOM node, its values and its children.
pub struct StyledTree {
    pub node: DomNode,
    pub values: Map<Seq<char>, CssValue>,
    pub children: Seq<StyledTree>,
}

/// The values a node gets: an element's [`specified`] values; a text or
/// comment node carries what it inherits.
pub open spec fn node_values(
    n: DomNode,
    ua: Seq<CssRule>,
    author: Seq<CssRule>,
    inherited: Map<Seq<char>, CssValue>,
) -> Map<Seq<char>, CssValue> {
    match n.kind {
        DomKind::Element(e) => specified(e, ua, author, inherited),
        _ => inherited,
    }
}

/// The styled tree of `n`.
pub open spec fn style_model(
    n: DomNode,
    ua: Seq<CssRule>,
    author: Seq<CssRule>,
    inherited: Map<Seq<char>, CssValue>,
) -> StyledTree
    decreases n,
{
    let values = node_values(n, ua, author, inherited);
    StyledTree {
        node: n,
        values,
        children: style_models(n.children, ua, author, inheritable(values)),
    }
}

/// The styled trees of a sequence of siblings.
pub open spec fn style_models(
    s: Seq<DomNode>,
    ua: Seq<CssRule>,
    author: Seq<CssRule>,
    inherited: Map<Seq<char>, CssValue>,
) -> Seq<StyledTree>
    decreases s,
{
    if s.len() == 0 {
        Seq::empty()
    } else {
        proof {
            vstd::seq::axiom_seq_subrange_decreases(s, 0, s.len() - 1);
            vstd::seq::axiom_seq_index_decreases(s, s.len() - 1);
        }
        style_models(s.drop_last(), ua, author, inherited).push(
            style_model(s.last(), ua, author, inherited),
        )
    }
}


// --- Resolving one element ---------------------------------------------------------

/// Write each declaration into `values` in turn.
fn apply_declarations(values: &mut PropertyMap, ds: &Vec<Declaration>)
    ensures
        final(values)@ == apply_decls(old(values)@, ds@.map_values(|d: Declaration| d@)),
{
    let ghost dv = ds@.map_values(|d: Declaration| d@);
    let mut i: usize = 0;
    while i < ds.len()
        invariant
            i <= ds@.len(),
            dv == ds@.map_values(|d: Declaration| d@),
            values@ == apply_decls(old(values)@, dv.take(i as int)),
        decreases ds.len() - i,
    {
        assert(dv.take(i + 1).drop_last() == dv.take(i as int));
        assert(dv.take(i + 1).last() == ds@[i as int]@);
        values.insert(ds[i].name.clone(), ds[i].value.copy());
        i += 1;
    }
    assert(dv.take(i as int) == dv);
}

/// Write the declarations of the text `prop: raw` into `values`.
fn set_hint(values: &mut PropertyMap, prop: &str, raw: &str)
    ensures
        final(values)@ == apply_decls(old(values)@, css_declarations(prop@ + ": "@ + raw@)),
{
    let mut text = String::from_str(prop);
    text.append(": ");
    text.append(raw);
    let decls = css::parse_declarations(text.as_str());
    apply_declarations(values, &decls);
}

/// `bgcolor="ff6600"` (no `#`) is valid in old HTML; CSS needs the hash.
pub fn normalize_color(raw: &str) -> (r: String)
    ensures
        r@ == normalized_color(raw@),
{
    let v = chars_of(raw);
    let t = trim_chars(&v);
    let mut bare = t.len() > 0 && t[0] != '#' && t.len() <= 6;
    let mut i: usize = 0;
    while bare && i < t.len()
        invariant
            i <= t@.len(),
            t@ == trim(raw@),
            bare ==> t@.len() > 0 && t@[0] != '#' && t@.len() <= 6,
            bare ==> forall|k: int| 0 <= k < i ==> is_hex_digit(#[trigger] t@[k]),
            !bare ==> !(t@.len() > 0 && t@[0] != '#' && t@.len() <= 6 && (forall|k: int|
                0 <= k < t@.len() ==> is_hex_digit(#[trigger] t@[k]))),
        decreases t.len() - i,
    {
        if !hex_digit(t[i]) {
            bare = false;
        }
        i += 1;
    }
    if bare {
        let mut out = String::new();
        out.push('#');
        let rest = string_of(&t);
        out.append(rest.as_str());
        assert(out@ =~= seq!['#'] + t@);
        out
    } else {
        string_of(&t)
    }
}

/// Map the legacy presentational attributes onto CSS properties.
fn apply_presentational_hints(elem: &ElementData, values: &mut PropertyMap)
    ensures
        final(values)@ == presentational_hints(elem@, old(values)@),
{
    if let Some(bg) = elem.get_attribute("bgcolor") {
        let n = normalize_color(bg);
        set_hint(values, "background-color", n.as_str());
    }
    if let Some(w) = elem.get_attribute("width") {
        set_hint(values, "width", w);
    }
    if let Some(h) = elem.get_attribute("height") {
        set_hint(values, "height", h);
    }
}

/// Whether a simple selector matches the element.
pub fn matches_simple(elem: &ElementData, selector: &SimpleSelector) -> (r: bool)
    ensures
        r == selector_matches(elem@, selector@),
{
    if let Some(tag) = &selector.tag_name {
        if !(*tag == elem.tag_name) {
            return false;
        }
    }
    if let Some(id) = &selector.id {
        match elem.id() {
            Some(eid) => {
                if !(*id == String::from_str(eid)) {
                    return false;
                }
            },
            None => {
                return false;
            },
        }
    }
    let elem_classes = elem.classes();
    let mut i: usize = 0;
    while i < selector.classes.len()
        invariant
            i <= selector.classes@.len(),
            elem_classes@.to_set() == class_set(elem@),
            forall|k: int| 0 <= k < i ==> class_set(elem@).contains(#[trigger] selector@.classes[k]),
        decreases selector.classes.len() - i,
    {
        assert(selector@.classes[i as int] == selector.classes@[i as int]@);
        if !elem_classes.contains(selector.classes[i].as_str()) {
            assert(!class_set(elem@).contains(selector@.classes[i as int]));
            return false;
        }
        i += 1;
    }
    true
}

/// Whether a selector matches the element.
pub fn matches_selector(elem: &ElementData, selector: &Selector) -> (r: bool)
    ensures
        r == selector_matches(elem@, selector@),
{
    let Selector::Simple(simple) = selector;
    matches_simple(elem, simple)
}

/// If any selector in the rule matches the element, the highest specificity
/// among those that do.
pub fn match_rule(elem: &ElementData, rule: &Rule) -> (r: Option<Specificity>)
    ensures
        match r {
            Some(k) => best_match(elem@, rule@.selectors) == Some(spec3(k)),
            None => best_match(elem@, rule@.selectors) is None,
        },
{
    let ghost sv = rule@.selectors;
    let mut best: Option<Specificity> = None;
    let mut i: usize = 0;
    while i < rule.selectors.len()
        invariant
            i <= rule.selectors@.len(),
            sv == rule@.selectors,
            sv.len() == rule.selectors@.len(),
            match best {
                Some(k) => best_match(elem@, sv.take(i as int)) == Some(spec3(k)),
                None => best_match(elem@, sv.take(i as int)) is None,
            },
        decreases rule.selectors.len() - i,
    {
        assert(sv.take(i + 1).drop_last() == sv.take(i as int));
        assert(sv.take(i + 1).last() == rule.selectors@[i as int]@);
        let sel = &rule.selectors[i];
        if matches_selector(elem, sel) {
            let k = sel.specificity();
            best = match best {
                Some(b) => if specificity_less(k, b) {
                    Some(b)
                } else {
                    Some(k)
                },
                None => Some(k),
            };
        }
        i += 1;
    }
    assert(sv.take(i as int) == sv);
    best
}

/// The names of the inherited properties.
fn inherited_names() -> (v: Vec<&'static str>)
    ensures
        v@.map_values(|n: &str| n@) == inherited_property_names(),
{
    let mut v: Vec<&'static str> = Vec::new();
    v.push("color");
    v.push("font-size");
    v.push("font-weight");
    v.push("font-style");
    v.push("font-family");
    v.push("line-height");
    v.push("text-align");
    v.push("white-space");
    v.push("list-style-type");
    v.push("visibility");
    assert(v@.map_values(|n: &str| n@) =~= inherited_property_names());
    v
}

/// `values` restricted to the names in `names`.
pub open spec fn restricted(values: Map<Seq<char>, CssValue>, names: Seq<Seq<char>>) -> Map<
    Seq<char>,
    CssValue,
> {
    Map::new(|k: Seq<char>| values.contains_key(k) && names.contains(k), |k: Seq<char>| values[k])
}

/// The properties of `values` that pass from parent to child.
pub fn inheritable_subset(values: &PropertyMap) -> (r: PropertyMap)
    ensures
        r@ == inheritable(values@),
{
    let names = inherited_names();
    let ghost nv = names@.map_values(|n: &str| n@);
    let mut out = PropertyMap::new();
    let mut i: usize = 0;
    assert(out@ =~= restricted(values@, nv.take(0)));
    while i < names.len()
        invariant
            i <= names@.len(),
            nv == names@.map_values(|n: &str| n@),
            out@ == restricted(values@, nv.take(i as int)),
        decreases names.len() - i,
    {
        let name = names[i];
        let ghost before = out@;
        assert(nv[i as int] == name@);
        assert forall|k: Seq<char>| #[trigger] nv.take(i + 1).contains(k) == (nv.take(
            i as int,
        ).contains(k) || k == name@) by {
            if nv.take(i + 1).contains(k) {
                let j = choose|j: int| 0 <= j < i + 1 && #[trigger] nv.take(i + 1)[j] == k;
                if j < i {
                    assert(nv.take(i as int)[j] == k);
                }
            }
            if nv.take(i as int).contains(k) {
                let j = choose|j: int| 0 <= j < i && #[trigger] nv.take(i as int)[j] == k;
                assert(nv.take(i + 1)[j] == k);
            }
            if k == name@ {
                assert(nv.take(i + 1)[i as int] == k);
            }
        }
        if let Some(v) = values.get(name) {
            out.insert(String::from_str(name), v.copy());
        }
        assert(out@ =~= restricted(values@, nv.take(i + 1)));
        i += 1;
    }
    assert(nv.take(i as int) == nv);
    assert(out@ =~= inheritable(values@));
    out
}

// --- The cascade for one element ---------------------------------------------------

/// The model of a list of matched rules.
pub open spec fn match_view(m: Seq<(Specificity, &Rule)>) -> Seq<((nat, nat, nat), CssRule)> {
    m.map_values(|p: (Specificity, &Rule)| (spec3(p.0), p.1@))
}

proof fn lemma_insert_ascending(
    s: Seq<((nat, nat, nat), CssRule)>,
    x: ((nat, nat, nat), CssRule),
    i: int,
)
    requires
        0 <= i <= s.len(),
        forall|k: int| 0 <= k < i ==> !spec_lt(x.0, (#[trigger] s[k]).0),
        i < s.len() ==> spec_lt(x.0, s[i].0),
    ensures
        insert_ascending(s, x) == s.take(i) + seq![x] + s.skip(i),
    decreases i,
{
    if i == 0 {
        if s.len() == 0 {
            assert(s.take(0) + seq![x] + s.skip(0) =~= seq![x]);
        } else {
            assert(s.take(0) + seq![x] + s.skip(0) =~= seq![x] + s);
        }
    } else {
        assert forall|k: int| 0 <= k < i - 1 implies !spec_lt(x.0, (#[trigger] s.drop_first()[k]).0) by {
            assert(s.drop_first()[k] == s[k + 1]);
        }
        lemma_insert_ascending(s.drop_first(), x, i - 1);
        assert(s.take(i) + seq![x] + s.skip(i) =~= seq![s[0]] + (s.drop_first().take(i - 1)
            + seq![x] + s.drop_first().skip(i - 1)));
    }
}

/// Insert a matched rule before the first one of strictly higher specificity,
/// so that the list stays sorted and rules of equal specificity keep their order.
fn insert_match<'r>(matches: &mut Vec<(Specificity, &'r Rule)>, k: Specificity, rule: &'r Rule)
    ensures
        match_view(final(matches)@) == insert_ascending(match_view(old(matches)@), (spec3(k), rule@)),
{
    let ghost v = match_view(matches@);
    let ghost x = (spec3(k), rule@);
    let mut i: usize = 0;
    while i < matches.len() && !specificity_less(k, matches[i].0)
        invariant
            i <= matches@.len(),
            v == match_view(matches@),
            x == (spec3(k), rule@),
            forall|j: int| 0 <= j < i ==> !spec_lt(x.0, (#[trigger] v[j]).0),
        decreases matches.len() - i,
    {
        assert(v[i as int].0 == spec3(matches@[i as int].0));
        i += 1;
    }
    proof {
        if i < matches@.len() {
            assert(v[i as int].0 == spec3(matches@[i as int].0));
        }
        lemma_insert_ascending(v, x, i as int);
    }
    matches.insert(i, (k, rule));
    assert(match_view(matches@) =~= v.take(i as int) + seq![x] + v.skip(i as int));
}

/// Add the rules of `sheet` that match `elem` to `matches`.
fn collect_matches<'r>(
    elem: &ElementData,
    sheet: &'r Stylesheet,
    matches: &mut Vec<(Specificity, &'r Rule)>,
    Ghost(before): Ghost<Seq<CssRule>>,
)
    requires
        match_view(old(matches)@) == sort_ascending(matched_rules(elem@, before)),
    ensures
        match_view(final(matches)@) == sort_ascending(matched_rules(elem@, before + sheet@)),
{
    let mut i: usize = 0;
    assert(before + sheet@.take(0) =~= before);
    while i < sheet.rules.len()
        invariant
            i <= sheet.rules@.len(),
            match_view(matches@) == sort_ascending(
                matched_rules(elem@, before + sheet@.take(i as int)),
            ),
        decreases sheet.rules.len() - i,
    {
        let rule = &sheet.rules[i];
        let ghost prefix = before + sheet@.take(i as int);
        let ghost next = before + sheet@.take(i + 1);
        assert(next.drop_last() =~= prefix);
        assert(next.last() == rule@);
        match match_rule(elem, rule) {
            Some(k) => {
                assert(matched_rules(elem@, prefix).push((spec3(k), rule@)).drop_last()
                    == matched_rules(elem@, prefix));
                insert_match(matches, k, rule);
            },
            None => {},
        }
        i += 1;
    }
    assert(sheet@.take(i as int) =~= sheet@);
}

/// Resolve one element's properties: inherited values first, then the
/// presentational attributes, then matched rules in cascade order, then the
/// inline `style` attribute.
fn specified_values(
    elem: &ElementData,
    ua: &Stylesheet,
    author: &Stylesheet,
    inherited: &PropertyMap,
) -> (r: PropertyMap)
    ensures
        r@ == specified(elem@, ua@, author@, inherited@),
{
    let mut values = inherited.copy();
    apply_presentational_hints(elem, &mut values);
    let ghost hinted = values@;
    let mut matches: Vec<(Specificity, &Rule)> = Vec::new();
    assert(match_view(matches@) =~= sort_ascending(matched_rules(elem@, Seq::empty())));
    collect_matches(elem, ua, &mut matches, Ghost(Seq::empty()));
    assert(Seq::<CssRule>::empty() + ua@ =~= ua@);
    collect_matches(elem, author, &mut matches, Ghost(ua@));
    let ghost sorted = match_view(matches@);
    let mut i: usize = 0;
    while i < matches.len()
        invariant
            i <= matches@.len(),
            sorted == match_view(matches@),
            values@ == apply_rules(hinted, sorted.take(i as int)),
        decreases matches.len() - i,
    {
        assert(sorted.take(i + 1).drop_last() == sorted.take(i as int));
        assert(sorted.take(i + 1).last() == sorted[i as int]);
        let rule = matches[i].1;
        apply_declarations(&mut values, &rule.declarations);
        i += 1;
    }
    assert(sorted.take(i as int) == sorted);
    if let Some(style_attr) = elem.get_attribute("style") {
        let decls = css::parse_declarations(style_attr);
        apply_declarations(&mut values, &decls);
    }
    values
}

// --- The styled tree ------------------------------------------------------------------

/// The DOM, annotated with computed style.
#[derive(Debug)]
pub struct StyledNode<'a> {
    pub node: &'a Node,
    pub specified_values: PropertyMap,
    pub children: Vec<StyledNode<'a>>,
}

/// The model of a styled node.
pub open spec fn styled_view<'a>(n: StyledNode<'a>) -> StyledTree
    decreases n,
{
    StyledTree {
        node: n.node@,
        values: n.specified_values@,
        children: styled_views(n.children@),
    }
}

/// The models of a sequence of styled nodes.
pub open spec fn styled_views<'a>(s: Seq<StyledNode<'a>>) -> Seq<StyledTree>
    decreases s,
{
    if s.len() == 0 {
        Seq::empty()
    } else {
        proof {
            vstd::seq::axiom_seq_subrange_decreases(s, 0, s.len() - 1);
            vstd::seq::axiom_seq_index_decreases(s, s.len() - 1);
        }
        styled_views(s.drop_last()).push(styled_view(s.last()))
    }
}

pub proof fn lemma_styled_views<'a>(s: Seq<StyledNode<'a>>)
    ensures
        #[trigger] styled_views(s).len() == s.len(),
        forall|i: int| 0 <= i < s.len() ==> #[trigger] styled_views(s)[i] == s[i]@,
    decreases s.len(),
{
    if s.len() > 0 {
        lemma_styled_views(s.drop_last());
    }
}

impl<'a> View for StyledNode<'a> {
    type V = StyledTree;

    open spec fn view(&self) -> StyledTree {
        styled_view(*self)
    }
}

/// How an element takes part in layout, from its `display` property.
#[derive(Debug, Clone, Copy, PartialEq, Eq, Structural)]
pub enum Display {
    Inline,
    Block,
    ListItem,
    /// `display: none`: neither the element nor its subtree is rendered.
    Hidden,
}

/// The `display` of a node with values `m`: `inline` when unset or not a
/// keyword; anything not modelled (flex, grid, table, ..) counts as `block`.
pub open spec fn display_of(m: Map<Seq<char>, CssValue>) -> Display {
    if m.contains_key("display"@) && m["display"@] is Keyword {
        let k = m["display"@]->Keyword_0;
        if k == "block"@ {
            Display::Block
        } else if k == "list-item"@ {
            Display::ListItem
        } else if k == "none"@ {
            Display::Hidden
        } else if k == "inline"@ {
            Display::Inline
        } else {
            Display::Block
        }
    } else {
        Display::Inline
    }
}

impl<'a> StyledNode<'a> {
    /// A property's computed value.
    pub fn value(&self, name: &str) -> (r: Option<Value>)
        ensures
            match r {
                Some(v) => self@.values.contains_key(name@) && self@.values[name@] == v@,
                None => !self@.values.contains_key(name@),
            },
    {
        match self.specified_values.get(name) {
            Some(v) => Some(v.copy()),
            None => None,
        }
    }

    /// A property's value, or `fallback` when it is unset.
    pub fn lookup(&self, name: &str, fallback: &Value) -> (r: Value)
        ensures
            r@ == if self@.values.contains_key(name@) {
                self@.values[name@]
            } else {
                fallback@
            },
    {
        match self.value(name) {
            Some(v) => v,
            None => fallback.copy(),
        }
    }

    /// The node's `display`, `inline` by default.
    pub fn display(&self) -> (r: Display)
        ensures
            r == display_of(self@.values),
    {
        let v = self.value("display");
        match &v {
            Some(val) => match val.keyword() {
                Some(k) => {
                    let kc = chars_of(k);
                    if crate::chars::str_eq_chars("block", &kc) {
                        Display::Block
                    } else if crate::chars::str_eq_chars("list-item", &kc) {
                        Display::ListItem
                    } else if crate::chars::str_eq_chars("none", &kc) {
                        Display::Hidden
                    } else if crate::chars::str_eq_chars("inline", &kc) {
                        Display::Inline
                    } else {
                        Display::Block
                    }
                },
                None => Display::Inline,
            },
            None => Display::Inline,
        }
    }
}

fn style_node<'a>(
    node: &'a Node,
    ua: &Stylesheet,
    author: &Stylesheet,
    inherited: &PropertyMap,
) -> (r: StyledNode<'a>)
    ensures
        r@ == style_model(node@, ua@, author@, inherited@),
    decreases node,
{
    proof {
        lemma_nodes_view(node.children@);
    }
    let specified = match &node.node_type {
        NodeType::Element(elem) => specified_values(elem, ua, author, inherited),
        _ => inherited.copy(),
    };
    let to_inherit = inheritable_subset(&specified);
    let ghost cs = nodes_view(node.children@);
    let mut children: Vec<StyledNode<'a>> = Vec::new();
    let mut i: usize = 0;
    while i < node.children.len()
        invariant
            i <= node.children.len(),
            cs == nodes_view(node.children@),
            cs.len() == node.children@.len(),
            forall|j: int| 0 <= j < cs.len() ==> #[trigger] cs[j] == node.children@[j]@,
            styled_views(children@) == style_models(
                cs.take(i as int),
                ua@,
                author@,
                to_inherit@,
            ),
        decreases node.children.len() - i,
    {
        assert(cs.take(i + 1).drop_last() == cs.take(i as int));
        assert(cs.take(i + 1).last() == cs[i as int]);
        let child = style_node(&node.children[i], ua, author, &to_inherit);
        let ghost before = children@;
        children.push(child);
        assert(children@.drop_last() == before);
        i += 1;
    }
    assert(cs.take(i as int) == cs);
    StyledNode { node, specified_values: specified, children }
}

/// The user-agent stylesheet's text: the defaults that make plain HTML readable.
pub const UA_CSS: &'static str = "
/* Robin's user-agent stylesheet: the defaults that make plain HTML readable. */

html, body, div, section, article, header, footer, nav, aside, main, figure,
h1, h2, h3, h4, h5, h6, p, ul, ol, li, dl, dt, dd, blockquote, pre, form,
table, thead, tbody, tfoot, tr, hr, address, fieldset, figcaption, center,
main, details, summary, dir, menu, caption {
    display: block;
}

/* Things that should never render. */
head, script, style, meta, link, title, noscript, template, base, param {
    display: none;
}

li { display: list-item; }

body { margin: 8px; color: #000000; font-size: 16px; line-height: 1.3; }

h1 { font-size: 32px; font-weight: bold; margin: 16px; }
h2 { font-size: 24px; font-weight: bold; margin: 14px; }
h3 { font-size: 20px; font-weight: bold; margin: 12px; }
h4 { font-size: 16px; font-weight: bold; margin: 12px; }
h5 { font-size: 14px; font-weight: bold; margin: 12px; }
h6 { font-size: 12px; font-weight: bold; margin: 12px; }

p, ul, ol, dl, blockquote, pre { margin: 12px; }
ul, ol { padding: 24px; }
li { margin: 2px; }
blockquote { padding: 8px; }

b, strong, th { font-weight: bold; }
i, em { font-style: italic; }
small { font-size: 13px; }
pre, code, tt { font-family: monospace; }

a { color: #0000ee; }

hr { margin: 8px; padding: 1px; background: #cccccc; }

td, th { padding: 2px; }

/* Make headers/cells in table-based layouts (Hacker News!) behave like blocks
   so their content still stacks readably even without real table layout. */
table, tbody, thead, tr { display: block; }
td, th { display: block; }
";

/// The rules of the user-agent stylesheet.
pub open spec fn ua_rules() -> Seq<CssRule> {
    css_rules(UA_CSS@)
}

/// The built-in defaults every browser ships, parsed from [`UA_CSS`].
pub fn user_agent_stylesheet() -> (r: Stylesheet)
    ensures
        r@ == ua_rules(),
{
    css::parse(UA_CSS)
}

/// Build the styled tree for a document, combining the user-agent stylesheet
/// with the page's author stylesheet.
pub fn style_tree<'a>(root: &'a Node, author: &Stylesheet) -> (r: StyledNode<'a>)
    ensures
        r@ == style_model(root@, ua_rules(), author@, Map::empty()),
{
    let ua = user_agent_stylesheet();
    style_node(root, &ua, author, &PropertyMap::new())
}

// --- Inline style sheets ---------------------------------------------------------------

/// The text of every `<style>` element under `n` (each followed by a newline),
/// in document order.
pub open spec fn style_text_of(n: DomNode) -> Seq<char>
    decreases n,
{
    (if tag_of(n) == Some("style"@) {
        inner_text_of(n).push('\n')
    } else {
        Seq::empty()
    }) + style_text_seq(n.children)
}

pub open spec fn style_text_seq(s: Seq<DomNode>) -> Seq<char>
    decreases s,
{
    if s.len() == 0 {
        Seq::empty()
    } else {
        proof {
            vstd::seq::axiom_seq_subrange_decreases(s, 0, s.len() - 1);
            vstd::seq::axiom_seq_index_decreases(s, s.len() - 1);
        }
        style_text_seq(s.drop_last()) + style_text_of(s.last())
    }
}

/// The concatenated text of every inline `<style>` block in the document.
pub fn inline_css(dom: &Node) -> (r: String)
    ensures
        r@ == style_text_of(dom@),
{
    let mut text = String::new();
    collect_style_text(dom, &mut text);
    assert(text@ =~= style_text_of(dom@));
    text
}

fn collect_style_text(node: &Node, out: &mut String)
    ensures
        final(out)@ == old(out)@ + style_text_of(node@),
    decreases node,
{
    proof {
        lemma_nodes_view(node.children@);
    }
    let ghost start = out@;
    if let Some(t) = node.tag_name() {
        if crate::chars::str_eq_chars("style", &chars_of(t)) {
            let inner = node.inner_text();
            out.append(inner.as_str());
            out.push('\n');
        }
    }
    let ghost mid = out@;
    assert(mid == start + (if tag_of(node@) == Some("style"@) {
        inner_text_of(node@).push('\n')
    } else {
        Seq::empty()
    }));
    let ghost cs = nodes_view(node.children@);
    let mut i: usize = 0;
    while i < node.children.len()
        invariant
            i <= node.children.len(),
            cs == nodes_view(node.children@),
            cs.len() == node.children@.len(),
            forall|j: int| 0 <= j < cs.len() ==> #[trigger] cs[j] == node.children@[j]@,
            out@ == mid + style_text_seq(cs.take(i as int)),
        decreases node.children.len() - i,
    {
        assert(cs.take(i + 1).drop_last() == cs.take(i as int));
        assert(cs.take(i + 1).last() == cs[i as int]);
        collect_style_text(&node.children[i], out);
        i += 1;
    }
    assert(cs.take(i as int) == cs);
}

/// A page's author CSS: the text of every `<style>` element, parsed.
pub fn document_stylesheet(dom: &Node) -> (r: Stylesheet)
    ensures
        r@ == css_rules(style_text_of(dom@)),
{
    css::parse(inline_css(dom).as_str())
}

// --- Laws of the cascade -------------------------------------------------------------------

/// The value given to `k` by the last declaration of `k` in `ds`.
pub open spec fn last_declared(ds: Seq<CssDeclaration>, k: Seq<char>) -> Option<CssValue>
    decreases ds.len(),
{
    if ds.len() == 0 {
        None
    } else if ds.last().name == k {
        Some(ds.last().value)
    } else {
        last_declared(ds.drop_last(), k)
    }
}

/// The value given to `k` by the last of the rules `rs` that declares it.
pub open spec fn rules_declare(rs: Seq<((nat, nat, nat), CssRule)>, k: Seq<char>) -> Option<CssValue>
    decreases rs.len(),
{
    if rs.len() == 0 {
        None
    } else {
        match last_declared(rs.last().1.declarations, k) {
            Some(v) => Some(v),
            None => rules_declare(rs.drop_last(), k),
        }
    }
}

proof fn lemma_apply_decls_at(m: Map<Seq<char>, CssValue>, ds: Seq<CssDeclaration>, k: Seq<char>)
    ensures
        last_declared(ds, k) matches Some(v) ==> apply_decls(m, ds).contains_key(k) && apply_decls(
            m,
            ds,
        )[k] == v,
        last_declared(ds, k) is None ==> (apply_decls(m, ds).contains_key(k) == m.contains_key(k)),
        last_declared(ds, k) is None && m.contains_key(k) ==> apply_decls(m, ds)[k] == m[k],
    decreases ds.len(),
{
    if ds.len() > 0 {
        lemma_apply_decls_at(m, ds.drop_last(), k);
    }
}

proof fn lemma_apply_rules_at(
    m: Map<Seq<char>, CssValue>,
    rs: Seq<((nat, nat, nat), CssRule)>,
    k: Seq<char>,
)
    ensures
        rules_declare(rs, k) matches Some(v) ==> apply_rules(m, rs).contains_key(k) && apply_rules(
            m,
            rs,
        )[k] == v,
        rules_declare(rs, k) is None ==> (apply_rules(m, rs).contains_key(k) == m.contains_key(k)),
        rules_declare(rs, k) is None && m.contains_key(k) ==> apply_rules(m, rs)[k] == m[k],
    decreases rs.len(),
{
    if rs.len() > 0 {
        lemma_apply_rules_at(m, rs.drop_last(), k);
        lemma_apply_decls_at(apply_rules(m, rs.drop_last()), rs.last().1.declarations, k);
    }
}

/// Inline styles beat any selector: a property set in the element's `style`
/// attribute takes the value of its last declaration there.
pub proof fn inline_style_wins(
    e: DomElement,
    ua: Seq<CssRule>,
    author: Seq<CssRule>,
    inherited: Map<Seq<char>, CssValue>,
    k: Seq<char>,
)
    requires
        last_declared(inline_decls(e), k) is Some,
    ensures
        specified(e, ua, author, inherited).contains_key(k),
        specified(e, ua, author, inherited)[k] == last_declared(inline_decls(e), k).unwrap(),
{
    let hinted = presentational_hints(e, inherited);
    let ruled = apply_rules(hinted, sort_ascending(matched_rules(e, ua + author)));
    lemma_apply_decls_at(ruled, inline_decls(e), k);
}

/// Matching rules beat presentational attributes and inherited values: a
/// property that a matching rule declares (and the inline style does not)
/// takes its value from the last such rule in cascade order.
pub proof fn matched_rules_beat_hints(
    e: DomElement,
    ua: Seq<CssRule>,
    author: Seq<CssRule>,
    inherited: Map<Seq<char>, CssValue>,
    k: Seq<char>,
)
    requires
        last_declared(inline_decls(e), k) is None,
        rules_declare(sort_ascending(matched_rules(e, ua + author)), k) is Some,
    ensures
        specified(e, ua, author, inherited).contains_key(k),
        specified(e, ua, author, inherited)[k] == rules_declare(
            sort_ascending(matched_rules(e, ua + author)),
            k,
        ).unwrap(),
{
    let hinted = presentational_hints(e, inherited);
    let sorted = sort_ascending(matched_rules(e, ua + author));
    lemma_apply_rules_at(hinted, sorted, k);
    lemma_apply_decls_at(apply_rules(hinted, sorted), inline_decls(e), k);
}

proof fn lemma_style_models(
    s: Seq<DomNode>,
    ua: Seq<CssRule>,
    author: Seq<CssRule>,
    inherited: Map<Seq<char>, CssValue>,
)
    ensures
        style_models(s, ua, author, inherited).len() == s.len(),
        forall|i: int|
            0 <= i < s.len() ==> #[trigger] style_models(s, ua, author, inherited)[i] == style_model(
                s[i],
                ua,
                author,
                inherited,
            ),
    decreases s.len(),
{
    if s.len() > 0 {
        lemma_style_models(s.drop_last(), ua, author, inherited);
    }
}

/// Only inherited properties reach text and comment nodes: a non-inherited
/// property such as a background or a margin never passes from an element to
/// its text.
pub proof fn text_holds_only_inherited_properties(
    n: DomNode,
    ua: Seq<CssRule>,
    author: Seq<CssRule>,
    inherited: Map<Seq<char>, CssValue>,
    i: int,
    k: Seq<char>,
)
    requires
        0 <= i < n.children.len(),
        !(n.children[i].kind is Element),
        style_model(n, ua, author, inherited).children[i].values.contains_key(k),
    ensures
        is_inherited_property(k),
{
    let values = node_values(n, ua, author, inherited);
    lemma_style_models(n.children, ua, author, inheritable(values));
}

/// The cascade's choice for `k` among matched rules in source order: of the
/// rules that declare `k`, the most specific, and of equally specific ones
/// the last (author rules come after user-agent ones); with its specificity.
pub open spec fn cascade_winner(ms: Seq<((nat, nat, nat), CssRule)>, k: Seq<char>) -> Option<
    ((nat, nat, nat), CssValue),
>
    decreases ms.len(),
{
    if ms.len() == 0 {
        None
    } else {
        let best = cascade_winner(ms.drop_last(), k);
        let x = ms.last();
        match last_declared(x.1.declarations, k) {
            Some(v) => match best {
                Some(b) => if spec_lt(x.0, b.0) {
                    best
                } else {
                    Some((x.0, v))
                },
                None => Some((x.0, v)),
            },
            None => best,
        }
    }
}

/// The last rule of `rs` that declares `k`: its specificity and its value.
pub open spec fn last_declaring(rs: Seq<((nat, nat, nat), CssRule)>, k: Seq<char>) -> Option<
    ((nat, nat, nat), CssValue),
>
    decreases rs.len(),
{
    if rs.len() == 0 {
        None
    } else {
        match last_declared(rs.last().1.declarations, k) {
            Some(v) => Some((rs.last().0, v)),
            None => last_declaring(rs.drop_last(), k),
        }
    }
}

/// Specificities in non-decreasing order.
pub open spec fn ascending(rs: Seq<((nat, nat, nat), CssRule)>) -> bool {
    forall|i: int, j: int| 0 <= i < j < rs.len() ==> !spec_lt((#[trigger] rs[j]).0, (#[trigger] rs[i]).0)
}

/// Where `insert_ascending` puts `x`.
pub open spec fn insert_position(sorted: Seq<((nat, nat, nat), CssRule)>, x: ((nat, nat, nat), CssRule)) -> int
    decreases sorted.len(),
{
    if sorted.len() == 0 {
        0
    } else if spec_lt(x.0, sorted[0].0) {
        0
    } else {
        1 + insert_position(sorted.drop_first(), x)
    }
}

proof fn lemma_insert_position(sorted: Seq<((nat, nat, nat), CssRule)>, x: ((nat, nat, nat), CssRule))
    requires
        ascending(sorted),
    ensures
        0 <= insert_position(sorted, x) <= sorted.len(),
        forall|j: int| 0 <= j < insert_position(sorted, x) ==> !spec_lt(x.0, (#[trigger] sorted[j]).0),
        forall|j: int| insert_position(sorted, x) <= j < sorted.len() ==> spec_lt(x.0, (#[trigger] sorted[j]).0),
    decreases sorted.len(),
{
    if sorted.len() > 0 && !spec_lt(x.0, sorted[0].0) {
        let rest = sorted.drop_first();
        assert forall|i: int, j: int| 0 <= i < j < rest.len() implies !spec_lt((#[trigger] rest[j]).0, (#[trigger] rest[i]).0) by {
            assert(rest[i] == sorted[i + 1] && rest[j] == sorted[j + 1]);
        }
        lemma_insert_position(rest, x);
        assert forall|j: int| 0 <= j < insert_position(sorted, x) implies !spec_lt(x.0, (#[trigger] sorted[j]).0) by {
            if j > 0 {
                assert(sorted[j] == rest[j - 1]);
            }
        }
        assert forall|j: int| insert_position(sorted, x) <= j < sorted.len() implies spec_lt(x.0, (#[trigger] sorted[j]).0) by {
            assert(sorted[j] == rest[j - 1]);
        }
    } else if sorted.len() > 0 {
        assert forall|j: int| 0 <= j < sorted.len() implies spec_lt(x.0, (#[trigger] sorted[j]).0) by {
            if j > 0 {
                assert(!spec_lt(sorted[j].0, sorted[0].0));
            }
        }
    }
}

proof fn lemma_last_declaring_concat(a: Seq<((nat, nat, nat), CssRule)>, b: Seq<((nat, nat, nat), CssRule)>, k: Seq<char>)
    ensures
        last_declaring(a + b, k) == if last_declaring(b, k) is Some {
            last_declaring(b, k)
        } else {
            last_declaring(a, k)
        },
    decreases b.len(),
{
    if b.len() == 0 {
        assert(a + b == a);
    } else {
        lemma_last_declaring_concat(a, b.drop_last(), k);
        assert((a + b).drop_last() == a + b.drop_last());
        assert((a + b).last() == b.last());
    }
}

proof fn lemma_last_declaring_from(rs: Seq<((nat, nat, nat), CssRule)>, k: Seq<char>)
    ensures
        last_declaring(rs, k) matches Some(p) ==> exists|j: int| 0 <= j < rs.len() && (#[trigger] rs[j]).0 == p.0,
    decreases rs.len(),
{
    if rs.len() > 0 {
        lemma_last_declaring_from(rs.drop_last(), k);
        if last_declared(rs.last().1.declarations, k) is None {
            if last_declaring(rs, k) is Some {
                let p = last_declaring(rs, k).unwrap();
                let j = choose|j: int| 0 <= j < rs.drop_last().len() && (#[trigger] rs.drop_last()[j]).0 == p.0;
                assert(rs[j] == rs.drop_last()[j]);
            }
        } else {
            assert(rs[rs.len() - 1] == rs.last());
        }
    }
}

proof fn lemma_cascade(ms: Seq<((nat, nat, nat), CssRule)>, k: Seq<char>)
    ensures
        ascending(sort_ascending(ms)),
        last_declaring(sort_ascending(ms), k) == cascade_winner(ms, k),
    decreases ms.len(),
{
    if ms.len() > 0 {
        lemma_cascade(ms.drop_last(), k);
        let srt = sort_ascending(ms.drop_last());
        let x = ms.last();
        lemma_insert_position(srt, x);
        let i = insert_position(srt, x);
        lemma_insert_ascending(srt, x, i);
        let a = srt.take(i);
        let b = srt.skip(i);
        let r = insert_ascending(srt, x);
        assert(r == a + seq![x] + b);
        assert(srt == a + b);
        // sortedness of the result
        assert forall|p: int, q: int| 0 <= p < q < r.len() implies !spec_lt((#[trigger] r[q]).0, (#[trigger] r[p]).0) by {
            if q < i {
                assert(r[p] == srt[p] && r[q] == srt[q]);
            } else if q == i {
                assert(r[q] == x && r[p] == srt[p]);
            } else if p > i {
                assert(r[p] == srt[p - 1] && r[q] == srt[q - 1]);
            } else if p == i {
                assert(r[p] == x && r[q] == srt[q - 1]);
            } else {
                assert(r[p] == srt[p] && r[q] == srt[q - 1]);
                assert(!spec_lt(x.0, srt[p].0));
                assert(spec_lt(x.0, srt[q - 1].0));
            }
        }
        // the winner
        lemma_last_declaring_concat(a + seq![x], b, k);
        lemma_last_declaring_concat(a, seq![x], k);
        lemma_last_declaring_concat(a, b, k);
        assert(seq![x].drop_last() =~= Seq::<((nat, nat, nat), CssRule)>::empty());
        assert(seq![x].last() == x);
        lemma_last_declaring_from(b, k);
        lemma_last_declaring_from(a, k);
        let one = seq![x];
        assert(last_declaring(one.drop_last(), k) is None);
        let lx = last_declared(x.1.declarations, k);
        let best = cascade_winner(ms.drop_last(), k);
        assert(best == last_declaring(a + b, k));
        assert(ms.drop_last().push(x) == ms);
        if last_declaring(b, k) is Some {
            let p = last_declaring(b, k).unwrap();
            let j = choose|j: int| 0 <= j < b.len() && (#[trigger] b[j]).0 == p.0;
            assert(b[j] == srt[j + i]);
            assert(spec_lt(x.0, p.0));
            assert(last_declaring(r, k) == last_declaring(b, k));
            assert(best == Some(p));
        } else {
            assert(best == last_declaring(a, k));
            if lx is Some {
                assert(last_declaring(one, k) == Some((x.0, lx.unwrap())));
                assert(last_declaring(r, k) == Some((x.0, lx.unwrap())));
                if last_declaring(a, k) is Some {
                    let p = last_declaring(a, k).unwrap();
                    let j = choose|j: int| 0 <= j < a.len() && (#[trigger] a[j]).0 == p.0;
                    assert(a[j] == srt[j]);
                    assert(!spec_lt(x.0, p.0));
                }
            } else {
                assert(last_declaring(one, k) is None);
                assert(last_declaring(r, k) == last_declaring(a, k));
            }
        }
    }
}

/// Specificity decides the cascade: a property declared by several matching
/// rules takes its value from the most specific of them, and among equally
/// specific ones from the last in source order, user-agent rules counting as
/// earlier than author rules.
pub proof fn most_specific_rule_wins(e: DomElement, ua: Seq<CssRule>, author: Seq<CssRule>, k: Seq<char>)
    ensures
        rules_declare(sort_ascending(matched_rules(e, ua + author)), k) == match cascade_winner(
            matched_rules(e, ua + author),
            k,
        ) {
            Some(p) => Some(p.1),
            None => None,
        },
{
    let ms = matched_rules(e, ua + author);
    lemma_cascade(ms, k);
    lemma_rules_declare_last(sort_ascending(ms), k);
}

proof fn lemma_rules_declare_last(rs: Seq<((nat, nat, nat), CssRule)>, k: Seq<char>)
    ensures
        rules_declare(rs, k) == match last_declaring(rs, k) {
            Some(p) => Some(p.1),
            None => None,
        },
    decreases rs.len(),
{
    if rs.len() > 0 {
        lemma_rules_declare_last(rs.drop_last(), k);
    }
}

/// The declarations the presentational attributes stand for, in the order
/// they are applied.
pub open spec fn hint_decls(e: DomElement) -> Seq<CssDeclaration> {
    let one = |prop: Seq<char>, raw: Option<Seq<char>>|
        match raw {
            Some(r) => css_declarations(prop + ": "@ + r),
            None => Seq::<CssDeclaration>::empty(),
        };
    let bg = match attr_lookup(e.attributes, "bgcolor"@) {
        Some(b) => Some(normalized_color(b)),
        None => None,
    };
    one("background-color"@, bg) + one("width"@, attr_lookup(e.attributes, "width"@)) + one(
        "height"@,
        attr_lookup(e.attributes, "height"@),
    )
}

proof fn lemma_apply_decls_concat(m: Map<Seq<char>, CssValue>, a: Seq<CssDeclaration>, b: Seq<CssDeclaration>)
    ensures
        apply_decls(m, a + b) == apply_decls(apply_decls(m, a), b),
    decreases b.len(),
{
    if b.len() == 0 {
        assert(a + b == a);
    } else {
        lemma_apply_decls_concat(m, a, b.drop_last());
        assert((a + b).drop_last() == a + b.drop_last());
        assert((a + b).last() == b.last());
    }
}

proof fn lemma_hints_as_decls(e: DomElement, m: Map<Seq<char>, CssValue>)
    ensures
        presentational_hints(e, m) == apply_decls(m, hint_decls(e)),
{
    let bg = match attr_lookup(e.attributes, "bgcolor"@) {
        Some(b) => Some(normalized_color(b)),
        None => None,
    };
    let d1 = match bg {
        Some(r) => css_declarations("background-color"@ + ": "@ + r),
        None => Seq::<CssDeclaration>::empty(),
    };
    let d2 = match attr_lookup(e.attributes, "width"@) {
        Some(r) => css_declarations("width"@ + ": "@ + r),
        None => Seq::<CssDeclaration>::empty(),
    };
    let d3 = match attr_lookup(e.attributes, "height"@) {
        Some(r) => css_declarations("height"@ + ": "@ + r),
        None => Seq::<CssDeclaration>::empty(),
    };
    assert(hint_decls(e) == d1 + d2 + d3);
    assert(apply_decls(m, Seq::<CssDeclaration>::empty()) == m);
    assert(apply_hint(m, "background-color"@, bg) == apply_decls(m, d1));
    lemma_apply_decls_concat(m, d1, d2);
    lemma_apply_decls_concat(m, d1 + d2, d3);
    let m1 = apply_decls(m, d1);
    assert(apply_decls(m1, Seq::<CssDeclaration>::empty()) == m1);
    let m2 = apply_decls(m1, d2);
    assert(apply_decls(m2, Seq::<CssDeclaration>::empty()) == m2);
}

/// Inheritance: an inherited property (such as `color`) that neither the
/// element's presentational attributes, nor a matching rule, nor its inline
/// style sets keeps the parent's value.
pub proof fn unset_inherited_property_comes_from_parent(
    e: DomElement,
    ua: Seq<CssRule>,
    author: Seq<CssRule>,
    parent: Map<Seq<char>, CssValue>,
    k: Seq<char>,
)
    requires
        is_inherited_property(k),
        parent.contains_key(k),
        last_declared(hint_decls(e), k) is None,
        rules_declare(sort_ascending(matched_rules(e, ua + author)), k) is None,
        last_declared(inline_decls(e), k) is None,
    ensures
        specified(e, ua, author, inheritable(parent)).contains_key(k),
        specified(e, ua, author, inheritable(parent))[k] == parent[k],
{
    let inh = inheritable(parent);
    assert(inh.contains_key(k) && inh[k] == parent[k]);
    lemma_hints_as_decls(e, inh);
    lemma_apply_decls_at(inh, hint_decls(e), k);
    let hinted = presentational_hints(e, inh);
    let sorted = sort_ascending(matched_rules(e, ua + author));
    lemma_apply_rules_at(hinted, sorted, k);
    lemma_apply_decls_at(apply_rules(hinted, sorted), inline_decls(e), k);
}

/// Non-inherited properties (a background, a margin, a width) never pass
/// from a parent to a child element: the child has one only when its own
/// attributes, matching rules or inline style set it.
pub proof fn non_inherited_property_does_not_leak(
    e: DomElement,
    ua: Seq<CssRule>,
    author: Seq<CssRule>,
    parent: Map<Seq<char>, CssValue>,
    k: Seq<char>,
)
    requires
        !is_inherited_property(k),
        last_declared(hint_decls(e), k) is None,
        rules_declare(sort_ascending(matched_rules(e, ua + author)), k) is None,
        last_declared(inline_decls(e), k) is None,
    ensures
        !specified(e, ua, author, inheritable(parent)).contains_key(k),
{
    let inh = inheritable(parent);
    lemma_hints_as_decls(e, inh);
    lemma_apply_decls_at(inh, hint_decls(e), k);
    let hinted = presentational_hints(e, inh);
    let sorted = sort_ascending(matched_rules(e, ua + author));
    lemma_apply_rules_at(hinted, sorted, k);
    lemma_apply_decls_at(apply_rules(hinted, sorted), inline_decls(e), k);
}

/// A rule matches an element exactly when one of its selectors does, and
/// then with the highest specificity among the selectors that match: one
/// matching selector has that specificity, and none has a greater one.
pub proof fn rule_match_is_most_specific_matching_selector(e: DomElement, sels: Seq<CssSelector>)
    ensures
        best_match(e, sels) is None <==> forall|i: int|
            0 <= i < sels.len() ==> !selector_matches(e, #[trigger] sels[i]),
        best_match(e, sels) matches Some(k) ==> exists|i: int|
            0 <= i < sels.len() && selector_matches(e, #[trigger] sels[i]) && specificity_of(sels[i])
                == k,
        best_match(e, sels) matches Some(k) ==> forall|i: int|
            0 <= i < sels.len() && selector_matches(e, #[trigger] sels[i]) ==> !spec_lt(
                k,
                specificity_of(sels[i]),
            ),
    decreases sels.len(),
{
    if sels.len() > 0 {
        let d = sels.drop_last();
        rule_match_is_most_specific_matching_selector(e, d);
        let last = sels.len() - 1;
        assert forall|i: int| 0 <= i < d.len() implies #[trigger] d[i] == sels[i] by {}
        if selector_matches(e, sels[last]) {
            let k = best_match(e, sels).unwrap();
            assert(selector_matches(e, sels[last]));
            match best_match(e, d) {
                Some(b) => {
                    let j = choose|j: int|
                        0 <= j < d.len() && selector_matches(e, #[trigger] d[j]) && specificity_of(d[j]) == b;
                    assert(sels[j] == d[j]);
                    assert forall|i: int| 0 <= i < sels.len() && selector_matches(e, #[trigger] sels[i]) implies !spec_lt(
                        k,
                        specificity_of(sels[i]),
                    ) by {
                        if i < last {
                            assert(sels[i] == d[i]);
                        }
                    }
                },
                None => {
                    assert forall|i: int| 0 <= i < sels.len() && selector_matches(e, #[trigger] sels[i]) implies !spec_lt(
                        k,
                        specificity_of(sels[i]),
                    ) by {
                        if i < last {
                            assert(sels[i] == d[i]);
                            assert(!selector_matches(e, d[i]));
                        }
                    }
                },
            }
        } else {
            assert forall|i: int| 0 <= i < sels.len() && selector_matches(e, #[trigger] sels[i]) implies i < last by {}
            if best_match(e, d) is Some {
                let b = best_match(e, d).unwrap();
                let j = choose|j: int|
                    0 <= j < d.len() && selector_matches(e, #[trigger] d[j]) && specificity_of(d[j]) == b;
                assert(sels[j] == d[j]);
                assert forall|i: int| 0 <= i < sels.len() && selector_matches(e, #[trigger] sels[i]) implies !spec_lt(
                    b,
                    specificity_of(sels[i]),
                ) by {
                    assert(sels[i] == d[i]);
                }
            } else {
                assert forall|i: int| 0 <= i < sels.len() implies !selector_matches(e, #[trigger] sels[i]) by {
                    if i < last {
                        assert(sels[i] == d[i]);
                        assert(!selector_matches(e, d[i]));
                    }
                }
            }
        }
    }
}

/// The `display` keywords: `inline` lays a node out inline, `list-item` as a
/// list item and `none` hides it; any other keyword (`block`, `flex`, ...)
/// lays it out as a block; a node with no `display` keyword is inline.
pub proof fn display_keywords(m: Map<Seq<char>, CssValue>)
    ensures
        m.contains_key("display"@) && m["display"@] == CssValue::Keyword("inline"@) ==> display_of(m)
            == Display::Inline,
        m.contains_key("display"@) && m["display"@] == CssValue::Keyword("block"@) ==> display_of(m)
            == Display::Block,
        m.contains_key("display"@) && m["display"@] == CssValue::Keyword("list-item"@) ==> display_of(
            m,
        ) == Display::ListItem,
        m.contains_key("display"@) && m["display"@] == CssValue::Keyword("none"@) ==> display_of(m)
            == Display::Hidden,
        !m.contains_key("display"@) ==> display_of(m) == Display::Inline,
        m.contains_key("display"@) && !(m["display"@] is Keyword) ==> display_of(m) == Display::Inline,
        m.contains_key("display"@) && m["display"@] is Keyword && m["display"@]->Keyword_0 != "inline"@
            && m["display"@]->Keyword_0 != "list-item"@ && m["display"@]->Keyword_0 != "none"@
            ==> display_of(m) == Display::Block,
{
    reveal_strlit("inline");
    reveal_strlit("block");
    reveal_strlit("list-item");
    reveal_strlit("none");
    assert("inline"@.len() == 6 && "block"@.len() == 5 && "list-item"@.len() == 9 && "none"@.len() == 4);
    assert("inline"@ != "block"@ && "inline"@ != "list-item"@ && "inline"@ != "none"@);
    assert("list-item"@ != "block"@);
}

/// Text takes its parent's font and text properties: each of `color`,
/// `font-size`, `font-weight`, `font-style`, `font-family`, `line-height`,
/// `text-align`, `white-space`, `list-style-type` and `visibility` that the
/// parent has, a text or comment child has with the same value, and it has
/// no other property.
pub proof fn text_inherits_font_and_text_properties(
    n: DomNode,
    ua: Seq<CssRule>,
    author: Seq<CssRule>,
    inherited: Map<Seq<char>, CssValue>,
    i: int,
    k: Seq<char>,
)
    requires
        0 <= i < n.children.len(),
        !(n.children[i].kind is Element),
    ensures
        ({
            let parent = style_model(n, ua, author, inherited).values;
            let child = style_model(n, ua, author, inherited).children[i].values;
            child.contains_key(k) <==> parent.contains_key(k) && (k == "color"@ || k == "font-size"@
                || k == "font-weight"@ || k == "font-style"@ || k == "font-family"@ || k
                == "line-height"@ || k == "text-align"@ || k == "white-space"@ || k
                == "list-style-type"@ || k == "visibility"@)
        }),
        style_model(n, ua, author, inherited).children[i].values.contains_key(k) ==> style_model(
            n,
            ua,
            author,
            inherited,
        ).children[i].values[k] == style_model(n, ua, author, inherited).values[k],
{
    let values = node_values(n, ua, author, inherited);
    lemma_style_models(n.children, ua, author, inheritable(values));
    let names = inherited_property_names();
    assert(names[0] == "color"@);
    assert(names[1] == "font-size"@);
    assert(names[2] == "font-weight"@);
    assert(names[3] == "font-style"@);
    assert(names[4] == "font-family"@);
    assert(names[5] == "line-height"@);
    assert(names[6] == "text-align"@);
    assert(names[7] == "white-space"@);
    assert(names[8] == "list-style-type"@);
    assert(names[9] == "visibility"@);
    if names.contains(k) {
        let j = choose|j: int| 0 <= j < names.len() && names[j] == k;
        assert(0 <= j < 10);
    }
}

} // verus!
