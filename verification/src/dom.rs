//! The DOM: the tree a browser builds out of HTML.
//!
//! A document is a [`Node`]; every node is an element, a run of text or a
//! comment, and any node can have children. Each executable type has a view
//! into a mathematical model ([`DomNode`]) over which contracts are stated.
use vstd::prelude::*;
use vstd::string::StringExecFns;
use crate::chars::{
    chars_of, chars_eq, chars_less, is_unicode_ws, slice_chars, seq_lt, lemma_seq_lt_total,
    lemma_seq_lt_transitive, lemma_seq_lt_irreflexive, string_of, trim, trim_chars, unicode_ws,
};

verus! {

// --- Model -------------------------------------------------------------------

/// An element's tag and attributes; the attributes are kept sorted by name,
/// with no name twice, so that equal attribute maps have equal models.
pub struct DomElement {
    pub tag_name: Seq<char>,
    pub attributes: Seq<(Seq<char>, Seq<char>)>,
}

/// The model of what a node is.
pub enum DomKind {
    Text(Seq<char>),
    Element(DomElement),
    Comment(Seq<char>),
}

/// The model of a node and its subtree.
pub struct DomNode {
    pub children: Seq<DomNode>,
    pub kind: DomKind,
}

pub open spec fn dom_text(s: Seq<char>) -> DomNode {
    DomNode { children: Seq::empty(), kind: DomKind::Text(s) }
}

pub open spec fn dom_comment(s: Seq<char>) -> DomNode {
    DomNode { children: Seq::empty(), kind: DomKind::Comment(s) }
}

pub open spec fn dom_elem(
    tag: Seq<char>,
    attrs: Seq<(Seq<char>, Seq<char>)>,
    children: Seq<DomNode>,
) -> DomNode {
    DomNode {
        children,
        kind: DomKind::Element(DomElement { tag_name: tag, attributes: attrs }),
    }
}

/// The tag name of a node, if it is an element.
pub open spec fn tag_of(n: DomNode) -> Option<Seq<char>> {
    match n.kind {
        DomKind::Element(e) => Some(e.tag_name),
        _ => None,
    }
}

/// The value of the first attribute named `name`.
pub open spec fn attr_lookup(attrs: Seq<(Seq<char>, Seq<char>)>, name: Seq<char>) -> Option<
    Seq<char>,
>
    decreases attrs.len(),
{
    if attrs.len() == 0 {
        None
    } else if attrs[0].0 == name {
        Some(attrs[0].1)
    } else {
        attr_lookup(attrs.drop_first(), name)
    }
}

/// Attribute names strictly increasing.
pub open spec fn attrs_sorted(attrs: Seq<(Seq<char>, Seq<char>)>) -> bool {
    forall|i: int, j: int| 0 <= i < j < attrs.len() ==> seq_lt(attrs[i].0, attrs[j].0)
}

/// The sorted attribute list after `name` is set to `value` (as `HashMap::insert`).
pub open spec fn attr_insert(
    attrs: Seq<(Seq<char>, Seq<char>)>,
    name: Seq<char>,
    value: Seq<char>,
) -> Seq<(Seq<char>, Seq<char>)>
    decreases attrs.len(),
{
    if attrs.len() == 0 {
        seq![(name, value)]
    } else if attrs[0].0 == name {
        seq![(name, value)] + attrs.drop_first()
    } else if seq_lt(name, attrs[0].0) {
        seq![(name, value)] + attrs
    } else {
        seq![attrs[0]] + attr_insert(attrs.drop_first(), name, value)
    }
}

/// Reading back a written attribute gives the written value; other names are
/// unaffected.
pub proof fn attribute_write_then_read(
    attrs: Seq<(Seq<char>, Seq<char>)>,
    name: Seq<char>,
    value: Seq<char>,
    other: Seq<char>,
)
    requires
        attrs_sorted(attrs),
    ensures
        attrs_sorted(attr_insert(attrs, name, value)),
        attr_lookup(attr_insert(attrs, name, value), name) == Some(value),
        other != name ==> attr_lookup(attr_insert(attrs, name, value), other) == attr_lookup(
            attrs,
            other,
        ),
    decreases attrs.len(),
{
    let r = attr_insert(attrs, name, value);
    if attrs.len() == 0 {
        assert(r.drop_first() =~= Seq::<(Seq<char>, Seq<char>)>::empty());
    } else if attrs[0].0 == name {
        assert(r.drop_first() == attrs.drop_first());
        assert(r[0].0 == name);
        assert forall|i: int, j: int| 0 <= i < j < r.len() implies seq_lt(r[i].0, r[j].0) by {
            assert(r[j] == attrs[j]);
            if i > 0 {
                assert(r[i] == attrs[i]);
            }
        }
    } else if seq_lt(name, attrs[0].0) {
        assert(r.drop_first() == attrs);
        assert(r[0].0 == name);
        assert forall|i: int, j: int| 0 <= i < j < r.len() implies seq_lt(r[i].0, r[j].0) by {
            if i == 0 && j > 1 {
                lemma_seq_lt_transitive(name, attrs[0].0, attrs[j - 1].0);
            }
        }
    } else {
        let rest = attrs.drop_first();
        assert(attrs_sorted(rest));
        attribute_write_then_read(rest, name, value, other);
        if other != name {
            if attrs[0].0 == other {
                assert(r[0].0 == other);
            } else {
                assert(attr_lookup(r, other) == attr_lookup(r.drop_first(), other));
            }
        }
        let ins = attr_insert(rest, name, value);
        assert(r.drop_first() == ins);
        assert(r[0] == attrs[0]);
        lemma_seq_lt_total(name, attrs[0].0);
        lemma_attr_insert_keys(rest, name, value);
        assert forall|i: int, j: int| 0 <= i < j < r.len() implies seq_lt(r[i].0, r[j].0) by {
            if i == 0 {
                let k = ins[j - 1].0;
                if k != name {
                    let idx = choose|idx: int| 0 <= idx < rest.len() && rest[idx].0 == k;
                    assert(attrs[idx + 1] == rest[idx]);
                }
            }
        }
    }
}

/// Every name in the updated list is the written name or an old name.
pub proof fn lemma_attr_insert_keys(
    attrs: Seq<(Seq<char>, Seq<char>)>,
    name: Seq<char>,
    value: Seq<char>,
)
    ensures
        forall|i: int|
            0 <= i < attr_insert(attrs, name, value).len() ==> (#[trigger] attr_insert(
                attrs,
                name,
                value,
            )[i]).0 == name || exists|j: int|
                0 <= j < attrs.len() && attrs[j].0 == attr_insert(attrs, name, value)[i].0,
    decreases attrs.len(),
{
    let r = attr_insert(attrs, name, value);
    if attrs.len() == 0 {
    } else if attrs[0].0 == name {
        assert forall|i: int| 0 <= i < r.len() implies (#[trigger] r[i]).0 == name || exists|
            j: int,
        | 0 <= j < attrs.len() && attrs[j].0 == r[i].0 by {
            if i > 0 {
                assert(attrs[i].0 == r[i].0);
            }
        }
    } else if seq_lt(name, attrs[0].0) {
        assert forall|i: int| 0 <= i < r.len() implies (#[trigger] r[i]).0 == name || exists|
            j: int,
        | 0 <= j < attrs.len() && attrs[j].0 == r[i].0 by {
            if i > 0 {
                assert(attrs[i - 1].0 == r[i].0);
            }
        }
    } else {
        let rest = attrs.drop_first();
        lemma_attr_insert_keys(rest, name, value);
        let ins = attr_insert(rest, name, value);
        assert forall|i: int| 0 <= i < r.len() implies (#[trigger] r[i]).0 == name || exists|
            j: int,
        | 0 <= j < attrs.len() && attrs[j].0 == r[i].0 by {
            if i == 0 {
                assert(attrs[0].0 == r[0].0);
            } else {
                assert(r[i] == ins[i - 1]);
                if ins[i - 1].0 != name {
                    let j = choose|j: int| 0 <= j < rest.len() && rest[j].0 == ins[i - 1].0;
                    assert(attrs[j + 1].0 == r[i].0);
                }
            }
        }
    }
}

// --- Attribute maps ----------------------------------------------------------

/// An element's attributes, e.g. `{"href": "/about", "class": "nav link"}`:
/// a map from names to values (names are unique; kept sorted by name).
#[derive(Debug, PartialEq)]
pub struct AttrMap {
    names: Vec<Vec<char>>,
    values: Vec<String>,
}

impl View for AttrMap {
    type V = Seq<(Seq<char>, Seq<char>)>;

    closed spec fn view(&self) -> Seq<(Seq<char>, Seq<char>)> {
        Seq::new(self.names@.len(), |i: int| (self.names@[i]@, self.values@[i]@))
    }
}

impl Clone for AttrMap {
    fn clone(&self) -> (r: AttrMap)
        ensures
            r@ == self@,
    {
        proof {
            use_type_invariant(self);
        }
        let mut names: Vec<Vec<char>> = Vec::new();
        let mut values: Vec<String> = Vec::new();
        let mut i: usize = 0;
        while i < self.names.len()
            invariant
                i <= self.names@.len(),
                self.names@.len() == self.values@.len(),
                names@.len() == i,
                values@.len() == i,
                forall|k: int| 0 <= k < i ==> #[trigger] names@[k]@ == self.names@[k]@,
                forall|k: int| 0 <= k < i ==> #[trigger] values@[k]@ == self.values@[k]@,
            decreases self.names.len() - i,
        {
            let name = slice_chars(&self.names[i], 0, self.names[i].len());
            assert(name@ =~= self.names@[i as int]@);
            names.push(name);
            values.push(self.values[i].clone());
            i += 1;
        }
        proof {
            use_type_invariant(self);
        }
        let r = AttrMap { names, values };
        assert(r@ =~= self@);
        r
    }
}

impl AttrMap {
    #[verifier::type_invariant]
    closed spec fn inv(self) -> bool {
        &&& self.names@.len() == self.values@.len()
        &&& forall|i: int, j: int|
            0 <= i < j < self.names@.len() ==> seq_lt(self.names@[i]@, self.names@[j]@)
    }

    /// An empty map.
    pub fn new() -> (r: AttrMap)
        ensures
            r@ == Seq::<(Seq<char>, Seq<char>)>::empty(),
    {
        let r = AttrMap { names: Vec::new(), values: Vec::new() };
        assert(r@ =~= Seq::<(Seq<char>, Seq<char>)>::empty());
        r
    }

    /// The number of attributes.
    pub fn len(&self) -> (r: usize)
        ensures
            r == self@.len(),
    {
        proof {
            use_type_invariant(self);
        }
        self.names.len()
    }

    /// The name of the `i`-th attribute in name order.
    pub fn name_at(&self, i: usize) -> (r: &Vec<char>)
        requires
            i < self@.len(),
        ensures
            r@ == self@[i as int].0,
    {
        proof {
            use_type_invariant(self);
        }
        &self.names[i]
    }

    /// The value of the `i`-th attribute in name order.
    pub fn value_at(&self, i: usize) -> (r: &str)
        requires
            i < self@.len(),
        ensures
            r@ == self@[i as int].1,
    {
        proof {
            use_type_invariant(self);
        }
        self.values[i].as_str()
    }

    /// Look an attribute up by name.
    pub fn get(&self, name: &Vec<char>) -> (r: Option<&str>)
        ensures
            match r {
                Some(v) => attr_lookup(self@, name@) == Some(v@),
                None => attr_lookup(self@, name@) is None,
            },
    {
        proof {
            use_type_invariant(self);
        }
        let mut i: usize = 0;
        assert(self@.skip(0) == self@);
        while i < self.names.len()
            invariant
                self.inv(),
                i <= self.names@.len(),
                attr_lookup(self@, name@) == attr_lookup(self@.skip(i as int), name@),
            decreases self.names.len() - i,
        {
            assert(self@.skip(i as int)[0] == self@[i as int]);
            if chars_eq(&self.names[i], name) {
                return Some(self.values[i].as_str());
            }
            assert(self@.skip(i as int).drop_first() == self@.skip(i + 1));
            i += 1;
        }
        None
    }

    /// Set `name` to `value`, replacing any earlier value (`HashMap::insert`).
    pub fn insert(&mut self, name: Vec<char>, value: String)
        ensures
            final(self)@ == attr_insert(old(self)@, name@, value@),
    {
        proof {
            use_type_invariant(&*self);
        }
        let mut taken = AttrMap::new();
        std::mem::swap(self, &mut taken);
        proof {
            use_type_invariant(&taken);
        }
        let AttrMap { names: mut names, values: mut values } = taken;
        let ghost old_view = Seq::new(names@.len(), |i: int| (names@[i]@, values@[i]@));
        assert(old_view == old(self)@);
        let mut i: usize = 0;
        assert(old_view.skip(0) == old_view);
        assert(old_view.take(0) + attr_insert(old_view, name@, value@) == attr_insert(old_view, name@, value@));
        while i < names.len() && chars_less(&names[i], &name)
            invariant
                names@.len() == values@.len(),
                old_view == Seq::new(names@.len(), |k: int| (names@[k]@, values@[k]@)),
                i <= names@.len(),
                attr_insert(old_view, name@, value@) == old_view.take(i as int) + attr_insert(
                    old_view.skip(i as int),
                    name@,
                    value@,
                ),
                forall|k: int| 0 <= k < i ==> seq_lt(#[trigger] names@[k]@, name@),
            decreases names.len() - i,
        {
            let ghost rest = old_view.skip(i as int);
            proof {
                lemma_seq_lt_irreflexive(name@);
                lemma_seq_lt_total(name@, names@[i as int]@);
                assert(rest[0] == old_view[i as int]);
                assert(rest.drop_first() == old_view.skip(i + 1));
                assert(old_view.take(i + 1) == old_view.take(i as int).push(old_view[i as int]));
            }
            i += 1;
        }
        let ghost rest = old_view.skip(i as int);
        if i < names.len() && chars_eq(&names[i], &name) {
            values.set(i, value);
            proof {
                assert(rest[0] == old_view[i as int]);
            }
        } else {
            proof {
                if i < names.len() {
                    lemma_seq_lt_total(name@, names@[i as int]@);
                    assert(rest[0] == old_view[i as int]);
                }
            }
            let ghost old_names = names@;
            names.insert(i, name);
            values.insert(i, value);
            proof {
                assert forall|a: int, b: int| 0 <= a < b < names@.len() implies seq_lt(
                    names@[a]@,
                    names@[b]@,
                ) by {
                    if b > i {
                        assert(names@[b] == old_names[b - 1]);
                        if b - 1 > i {
                            lemma_seq_lt_transitive(name@, old_names[i as int]@, old_names[b - 1]@);
                        }
                        if a < i {
                            assert(names@[a] == old_names[a]);
                            lemma_seq_lt_transitive(names@[a]@, name@, names@[b]@);
                        } else if a > i {
                            assert(names@[a] == old_names[a - 1]);
                        }
                    } else if b == i {
                        assert(names@[a] == old_names[a]);
                    } else {
                        assert(names@[a] == old_names[a]);
                        assert(names@[b] == old_names[b]);
                    }
                }
            }
        }
        *self = AttrMap { names, values };
        assert(self@ =~= attr_insert(old_view, name@, value@));
    }

    /// Set `name` to `value` unless `name` is already present
    /// (`HashMap::entry(..).or_insert(..)`).
    pub fn insert_if_absent(&mut self, name: Vec<char>, value: String)
        ensures
            attr_lookup(old(self)@, name@) is Some ==> final(self)@ == old(self)@,
            attr_lookup(old(self)@, name@) is None ==> final(self)@ == attr_insert(
                old(self)@,
                name@,
                value@,
            ),
    {
        if self.get(&name).is_none() {
            self.insert(name, value);
        }
    }
}

// --- Class lists ------------------------------------------------------------

/// `str::split_whitespace`, with `cur` the word read so far.
pub open spec fn split_ws_from(s: Seq<char>, cur: Seq<char>) -> Seq<Seq<char>>
    decreases s.len(),
{
    if s.len() == 0 {
        if cur.len() == 0 {
            Seq::empty()
        } else {
            seq![cur]
        }
    } else if is_unicode_ws(s[0]) {
        (if cur.len() == 0 {
            Seq::empty()
        } else {
            seq![cur]
        }) + split_ws_from(s.drop_first(), Seq::empty())
    } else {
        split_ws_from(s.drop_first(), cur.push(s[0]))
    }
}

/// The white-space separated words of `s` (`str::split_whitespace`).
pub open spec fn words(s: Seq<char>) -> Seq<Seq<char>> {
    split_ws_from(s, Seq::empty())
}

/// A class name: not empty, and without white space.
pub open spec fn class_name_ok(w: Seq<char>) -> bool {
    w.len() > 0 && forall|k: int| 0 <= k < w.len() ==> !is_unicode_ws(#[trigger] w[k])
}

proof fn lemma_split_ws_ok(s: Seq<char>, cur: Seq<char>)
    requires
        forall|k: int| 0 <= k < cur.len() ==> !is_unicode_ws(#[trigger] cur[k]),
    ensures
        forall|i: int| 0 <= i < split_ws_from(s, cur).len() ==> class_name_ok(
            #[trigger] split_ws_from(s, cur)[i],
        ),
    decreases s.len(),
{
    if s.len() > 0 {
        if is_unicode_ws(s[0]) {
            lemma_split_ws_ok(s.drop_first(), Seq::empty());
            let head: Seq<Seq<char>> = if cur.len() == 0 {
                Seq::empty()
            } else {
                seq![cur]
            };
            let rest = split_ws_from(s.drop_first(), Seq::empty());
            assert(split_ws_from(s, cur) == head + rest);
            assert forall|i: int| 0 <= i < split_ws_from(s, cur).len() implies class_name_ok(
                #[trigger] split_ws_from(s, cur)[i],
            ) by {
                if i >= head.len() {
                    assert(split_ws_from(s, cur)[i] == rest[i - head.len()]);
                }
            }
        } else {
            let c2 = cur.push(s[0]);
            assert forall|k: int| 0 <= k < c2.len() implies !is_unicode_ws(#[trigger] c2[k]) by {
                if k < cur.len() {
                    assert(c2[k] == cur[k]);
                }
            }
            lemma_split_ws_ok(s.drop_first(), c2);
            assert(split_ws_from(s, cur) == split_ws_from(s.drop_first(), c2));
        }
    } else if cur.len() > 0 {
        assert(split_ws_from(s, cur) == seq![cur]);
        assert(class_name_ok(cur));
    }
}

/// Every white-space separated word is a class name: none is empty or holds
/// white space.
pub proof fn words_are_class_names(s: Seq<char>)
    ensures
        forall|i: int| 0 <= i < words(s).len() ==> class_name_ok(#[trigger] words(s)[i]),
{
    lemma_split_ws_ok(s, Seq::empty());
}

/// The set of class names on an element: each name once.
#[derive(Debug, Clone, PartialEq)]
pub struct ClassList {
    names: Vec<Vec<char>>,
}

impl View for ClassList {
    type V = Seq<Seq<char>>;

    closed spec fn view(&self) -> Seq<Seq<char>> {
        self.names@.map_values(|n: Vec<char>| n@)
    }
}

impl ClassList {
    /// Whether `name` is one of the classes.
    pub fn contains(&self, name: &str) -> (r: bool)
        ensures
            r == self@.contains(name@),
    {
        let n = chars_of(name);
        self.contains_chars(&n)
    }

    /// Whether `name` is one of the classes.
    pub fn contains_chars(&self, name: &Vec<char>) -> (r: bool)
        ensures
            r == self@.contains(name@),
    {
        let mut i: usize = 0;
        while i < self.names.len()
            invariant
                i <= self.names@.len(),
                forall|k: int| 0 <= k < i ==> self.names@[k]@ != name@,
            decreases self.names.len() - i,
        {
            if chars_eq(&self.names[i], name) {
                assert(self@[i as int] == name@);
                return true;
            }
            i += 1;
        }
        assert forall|k: int| 0 <= k < self@.len() implies self@[k] != name@ by {
            assert(self@[k] == self.names@[k]@);
        }
        false
    }

    /// The number of distinct classes.
    pub fn len(&self) -> (r: usize)
        ensures
            r == self@.len(),
    {
        self.names.len()
    }

    /// The classes named in a `class` attribute value.
    pub fn from_attribute(value: &str) -> (r: ClassList)
        ensures
            r@.no_duplicates(),
            r@.to_set() == words(value@).to_set(),
            forall|i: int| 0 <= i < r@.len() ==> class_name_ok(#[trigger] r@[i]),
    {
        let v = chars_of(value);
        let mut r = ClassList { names: Vec::new() };
        let mut cur: Vec<char> = Vec::new();
        let ghost mut emitted: Seq<Seq<char>> = Seq::empty();
        let mut i: usize = 0;
        assert(v@.skip(0) == v@);
        while i < v.len()
            invariant
                i <= v@.len(),
                v@ == value@,
                emitted + split_ws_from(v@.skip(i as int), cur@) == words(value@),
                r@.no_duplicates(),
                r@.to_set() == emitted.to_set(),
            decreases v.len() - i,
        {
            let c = v[i];
            assert(v@.skip(i as int)[0] == c);
            assert(v@.skip(i as int).drop_first() == v@.skip(i + 1));
            if unicode_ws(c) {
                if cur.len() > 0 {
                    proof {
                        emitted.lemma_push_to_set_commute(cur@);
                    }
                    r.add(cur);
                    proof {
                        emitted = emitted.push(cur@);
                    }
                    cur = Vec::new();
                } else {
                    assert(Seq::<Seq<char>>::empty() + split_ws_from(v@.skip(i + 1), cur@)
                        == split_ws_from(v@.skip(i + 1), cur@));
                }
                proof {
                    assert(cur@ == Seq::<char>::empty());
                }
            } else {
                cur.push(c);
            }
            i += 1;
        }
        assert(v@.skip(i as int).len() == 0);
        if cur.len() > 0 {
            proof {
                emitted.lemma_push_to_set_commute(cur@);
            }
            r.add(cur);
            proof {
                emitted = emitted.push(cur@);
            }
        }
        proof {
            assert(emitted + Seq::<Seq<char>>::empty() == emitted);
            assert(emitted =~= words(value@));
            words_are_class_names(value@);
            assert forall|i: int| 0 <= i < r@.len() implies class_name_ok(#[trigger] r@[i]) by {
                assert(r@.to_set().contains(r@[i]));
                assert(words(value@).to_set().contains(r@[i]));
                let j = choose|j: int| 0 <= j < words(value@).len() && words(value@)[j] == r@[i];
                assert(class_name_ok(words(value@)[j]));
            }
        }
        r
    }

    fn add(&mut self, name: Vec<char>)
        requires
            old(self)@.no_duplicates(),
        ensures
            final(self)@.no_duplicates(),
            final(self)@.to_set() == old(self)@.to_set().insert(name@),
    {
        if !self.contains_chars(&name) {
            let ghost before = self@;
            self.names.push(name);
            assert(self@ =~= before.push(name@));
            proof {
                before.lemma_push_to_set_commute(name@);
            }
        } else {
            assert(self@.to_set().insert(name@) =~= self@.to_set());
        }
    }
}

// --- Nodes ---------------------------------------------------------------------

/// A single node in the document tree. A parent owns its children.
#[derive(Debug, PartialEq)]
pub struct Node {
    pub children: Vec<Node>,
    pub node_type: NodeType,
}

/// What kind of node this is, and the data specific to it.
#[derive(Debug, PartialEq)]
pub enum NodeType {
    /// A run of text.
    Text(String),
    /// An element, e.g. `<p class="lead">`.
    Element(ElementData),
    /// An HTML comment; kept so the tree round-trips, ignored by style and layout.
    Comment(String),
}

/// The data attached to an element.
#[derive(Debug, Clone, PartialEq)]
pub struct ElementData {
    /// Lower-cased tag name, e.g. `"div"`.
    pub tag_name: String,
    pub attributes: AttrMap,
}

impl View for ElementData {
    type V = DomElement;

    open spec fn view(&self) -> DomElement {
        DomElement { tag_name: self.tag_name@, attributes: self.attributes@ }
    }
}

impl View for NodeType {
    type V = DomKind;

    open spec fn view(&self) -> DomKind {
        match self {
            NodeType::Text(s) => DomKind::Text(s@),
            NodeType::Element(e) => DomKind::Element(e@),
            NodeType::Comment(s) => DomKind::Comment(s@),
        }
    }
}

/// The models of a sequence of nodes.
pub open spec fn nodes_view(s: Seq<Node>) -> Seq<DomNode>
    decreases s,
{
    if s.len() == 0 {
        Seq::empty()
    } else {
        proof {
            vstd::seq::axiom_seq_subrange_decreases(s, 0, s.len() - 1);
            vstd::seq::axiom_seq_index_decreases(s, s.len() - 1);
        }
        nodes_view(s.drop_last()).push(node_view(s.last()))
    }
}

/// The model of a node.
pub open spec fn node_view(n: Node) -> DomNode
    decreases n,
{
    DomNode { children: nodes_view(n.children@), kind: n.node_type@ }
}

impl View for Node {
    type V = DomNode;

    open spec fn view(&self) -> DomNode {
        node_view(*self)
    }
}

pub proof fn lemma_nodes_view(s: Seq<Node>)
    ensures
        #[trigger] nodes_view(s).len() == s.len(),
        forall|i: int| 0 <= i < s.len() ==> #[trigger] nodes_view(s)[i] == s[i]@,
    decreases s.len(),
{
    if s.len() > 0 {
        lemma_nodes_view(s.drop_last());
    }
}

pub proof fn lemma_nodes_view_push(s: Seq<Node>, n: Node)
    ensures
        nodes_view(s.push(n)) == nodes_view(s).push(n@),
{
    assert(s.push(n).drop_last() == s);
}

impl Clone for Node {
    /// A deep copy of the subtree.
    fn clone(&self) -> (r: Node)
        ensures
            r@ == self@,
        decreases self,
    {
        let node_type = match &self.node_type {
            NodeType::Text(t) => NodeType::Text(t.clone()),
            NodeType::Comment(t) => NodeType::Comment(t.clone()),
            NodeType::Element(e) => NodeType::Element(
                ElementData { tag_name: e.tag_name.clone(), attributes: e.attributes.clone() },
            ),
        };
        proof {
            lemma_nodes_view(self.children@);
        }
        let mut children: Vec<Node> = Vec::new();
        let mut i: usize = 0;
        while i < self.children.len()
            invariant
                i <= self.children@.len(),
                children@.len() == i,
                forall|k: int| 0 <= k < i ==> #[trigger] children@[k]@ == self.children@[k]@,
            decreases self.children.len() - i,
        {
            let child = self.children[i].clone();
            children.push(child);
            i += 1;
        }
        let r = Node { children, node_type };
        proof {
            lemma_nodes_view(r.children@);
            lemma_nodes_view(self.children@);
            assert(nodes_view(r.children@) =~= nodes_view(self.children@));
        }
        r
    }
}

/// Create a text node.
pub fn text(data: &str) -> (r: Node)
    ensures
        r@ == dom_text(data@),
{
    let r = Node { children: Vec::new(), node_type: NodeType::Text(String::from_str(data)) };
    assert(r@.children =~= Seq::<DomNode>::empty());
    r
}

/// Create a comment node.
pub fn comment(data: &str) -> (r: Node)
    ensures
        r@ == dom_comment(data@),
{
    let r = Node { children: Vec::new(), node_type: NodeType::Comment(String::from_str(data)) };
    assert(r@.children =~= Seq::<DomNode>::empty());
    r
}

/// Create an element node with the given tag, attributes and children.
pub fn elem(tag_name: &str, attributes: AttrMap, children: Vec<Node>) -> (r: Node)
    ensures
        r@ == dom_elem(tag_name@, attributes@, nodes_view(children@)),
{
    Node {
        children,
        node_type: NodeType::Element(
            ElementData { tag_name: String::from_str(tag_name), attributes },
        ),
    }
}

/// All text in a node and its descendants, in document order.
pub open spec fn inner_text_of(n: DomNode) -> Seq<char>
    decreases n,
{
    (match n.kind {
        DomKind::Text(s) => s,
        _ => Seq::empty(),
    }) + inner_text_seq(n.children)
}

/// All text in a sequence of nodes, in document order.
pub open spec fn inner_text_seq(s: Seq<DomNode>) -> Seq<char>
    decreases s,
{
    if s.len() == 0 {
        Seq::empty()
    } else {
        proof {
            vstd::seq::axiom_seq_subrange_decreases(s, 0, s.len() - 1);
            vstd::seq::axiom_seq_index_decreases(s, s.len() - 1);
        }
        inner_text_seq(s.drop_last()) + inner_text_of(s.last())
    }
}

/// The proper descendants of a node, in document (pre-)order.
pub open spec fn descendants_of(n: DomNode) -> Seq<DomNode>
    decreases n,
{
    descendants_seq(n.children)
}

/// Each node of `s` followed by its descendants, in document order.
pub open spec fn descendants_seq(s: Seq<DomNode>) -> Seq<DomNode>
    decreases s,
{
    if s.len() == 0 {
        Seq::empty()
    } else {
        proof {
            vstd::seq::axiom_seq_subrange_decreases(s, 0, s.len() - 1);
            vstd::seq::axiom_seq_index_decreases(s, s.len() - 1);
        }
        descendants_seq(s.drop_last()) + seq![s.last()] + descendants_of(s.last())
    }
}

impl Node {
    /// If this node is an element, its data.
    pub fn element(&self) -> (r: Option<&ElementData>)
        ensures
            r is Some <==> self@.kind is Element,
            r matches Some(e) ==> self@.kind == DomKind::Element(e@),
    {
        match &self.node_type {
            NodeType::Element(e) => Some(e),
            _ => None,
        }
    }

    /// The lower-cased tag name, if this is an element.
    pub fn tag_name(&self) -> (r: Option<&str>)
        ensures
            match r {
                Some(t) => tag_of(self@) == Some(t@),
                None => tag_of(self@) is None,
            },
    {
        match &self.node_type {
            NodeType::Element(e) => Some(e.tag_name.as_str()),
            _ => None,
        }
    }

    /// The text contained directly in this node, if it is a text node.
    pub fn text_content(&self) -> (r: Option<&str>)
        ensures
            match r {
                Some(t) => self@.kind == DomKind::Text(t@),
                None => !(self@.kind is Text),
            },
    {
        match &self.node_type {
            NodeType::Text(s) => Some(s.as_str()),
            _ => None,
        }
    }

    /// All text under this node, concatenated in document order.
    pub fn inner_text(&self) -> (r: String)
        ensures
            r@ == inner_text_of(self@),
    {
        let mut out = String::new();
        self.collect_text(&mut out);
        out
    }

    fn collect_text(&self, out: &mut String)
        ensures
            final(out)@ == old(out)@ + inner_text_of(self@),
        decreases self,
    {
        proof {
            lemma_nodes_view(self.children@);
        }
        if let NodeType::Text(s) = &self.node_type {
            out.append(s.as_str());
        }
        let ghost start = out@;
        let ghost cs = nodes_view(self.children@);
        let mut i: usize = 0;
        while i < self.children.len()
            invariant
                i <= self.children.len(),
                cs == nodes_view(self.children@),
                cs.len() == self.children@.len(),
                forall|j: int| 0 <= j < cs.len() ==> #[trigger] cs[j] == self.children@[j]@,
                out@ == start + inner_text_seq(cs.take(i as int)),
            decreases self.children.len() - i,
        {
            assert(cs.take(i + 1).drop_last() == cs.take(i as int));
            assert(cs.take(i + 1).last() == cs[i as int]);
            assert(cs[i as int] == self.children@[i as int]@);
            self.children[i].collect_text(out);
            i += 1;
        }
        assert(cs.take(i as int) == cs);
    }

    /// The proper descendants of this node, in document order.
    pub fn descendants(&self) -> (r: Vec<&Node>)
        ensures
            r@.map_values(|n: &Node| n@) == descendants_of(self@),
    {
        let mut out: Vec<&Node> = Vec::new();
        self.collect_descendants(&mut out);
        assert(out@ =~= out@.subrange(0, out@.len() as int));
        out
    }

    fn collect_descendants<'a>(&'a self, out: &mut Vec<&'a Node>)
        ensures
            final(out)@.map_values(|n: &Node| n@) == old(out)@.map_values(|n: &Node| n@)
                + descendants_of(self@),
        decreases self,
    {
        proof {
            lemma_nodes_view(self.children@);
        }
        let ghost start = out@.map_values(|n: &Node| n@);
        let ghost cs = nodes_view(self.children@);
        let mut i: usize = 0;
        while i < self.children.len()
            invariant
                i <= self.children.len(),
                cs == nodes_view(self.children@),
                cs.len() == self.children@.len(),
                forall|j: int| 0 <= j < cs.len() ==> #[trigger] cs[j] == self.children@[j]@,
                out@.map_values(|n: &Node| n@) == start + descendants_seq(cs.take(i as int)),
            decreases self.children.len() - i,
        {
            assert(cs.take(i + 1).drop_last() == cs.take(i as int));
            assert(cs.take(i + 1).last() == cs[i as int]);
            assert(cs[i as int] == self.children@[i as int]@);
            let ghost before = out@;
            out.push(&self.children[i]);
            assert(out@.map_values(|n: &Node| n@) =~= before.map_values(|n: &Node| n@).push(
                cs[i as int],
            ));
            self.children[i].collect_descendants(out);
            i += 1;
        }
        assert(cs.take(i as int) == cs);
    }
}

impl ElementData {
    /// Look up an attribute by (lower-case) name.
    pub fn get_attribute(&self, name: &str) -> (r: Option<&str>)
        ensures
            match r {
                Some(v) => attr_lookup(self@.attributes, name@) == Some(v@),
                None => attr_lookup(self@.attributes, name@) is None,
            },
    {
        let n = chars_of(name);
        self.attributes.get(&n)
    }

    /// The element's `id`, if any.
    pub fn id(&self) -> (r: Option<&str>)
        ensures
            match r {
                Some(v) => attr_lookup(self@.attributes, "id"@) == Some(v@),
                None => attr_lookup(self@.attributes, "id"@) is None,
            },
    {
        self.get_attribute("id")
    }

    /// The set of `class` names on the element.
    pub fn classes(&self) -> (r: ClassList)
        ensures
            r@.no_duplicates(),
            forall|i: int| 0 <= i < r@.len() ==> class_name_ok(#[trigger] r@[i]),
            r@.to_set() == match attr_lookup(self@.attributes, "class"@) {
                Some(v) => words(v).to_set(),
                None => Set::empty(),
            },
    {
        match self.get_attribute("class") {
            Some(classlist) => ClassList::from_attribute(classlist),
            None => {
                let r = ClassList { names: Vec::new() };
                assert(r@.to_set() =~= Set::empty());
                r
            },
        }
    }
}

// --- Pretty-printing ---------------------------------------------------------

/// The standard library's `{:?}` formatting of a string: quoted, with escapes.
pub uninterp spec fn debug_str(s: Seq<char>) -> Seq<char>;

/// Formats `s` with `format!("{:?}", s)`, the standard library's `Debug` for
/// `str`. The contract claims only that the result is a function of the
/// characters of `s` ([`debug_str`]); the quoting and escaping rules are not
/// stated.
#[verifier::external_body]
fn debug_quoted(s: &str) -> (r: String)
    ensures
        r@ == debug_str(s@),
{
    format!("{:?}", s)
}

/// `depth` levels of two-space indentation.
pub open spec fn indent(depth: nat) -> Seq<char>
    decreases depth,
{
    if depth == 0 {
        Seq::empty()
    } else {
        indent((depth - 1) as nat) + seq![' ', ' ']
    }
}

/// At most `max` characters of `s`, with an ellipsis when something was cut.
pub open spec fn truncated(s: Seq<char>, max: nat) -> Seq<char> {
    if s.len() <= max {
        s
    } else {
        s.take(max as int).push('…')
    }
}

/// ` name="value"` for each attribute, in name order.
pub open spec fn attrs_text(attrs: Seq<(Seq<char>, Seq<char>)>) -> Seq<char>
    decreases attrs.len(),
{
    if attrs.len() == 0 {
        Seq::empty()
    } else {
        attrs_text(attrs.drop_last()) + seq![' '] + attrs.last().0 + seq!['=', '"']
            + attrs.last().1 + seq!['"']
    }
}

/// The line printed for one node (without its children).
pub open spec fn node_line(n: DomNode, depth: nat) -> Seq<char> {
    match n.kind {
        DomKind::Text(s) => {
            let t = trim(s);
            if t.len() == 0 {
                Seq::empty()
            } else {
                indent(depth) + "#text "@ + debug_str(truncated(t, 60)) + seq!['\n']
            }
        },
        DomKind::Comment(s) => indent(depth) + "<!-- "@ + truncated(trim(s), 40) + " -->\n"@,
        DomKind::Element(e) => indent(depth) + seq!['<'] + e.tag_name + attrs_text(e.attributes)
            + seq!['>', '\n'],
    }
}

/// The indented dump of a node and its subtree.
pub open spec fn pretty(n: DomNode, depth: nat) -> Seq<char>
    decreases n,
{
    node_line(n, depth) + pretty_seq(n.children, depth + 1)
}

/// The dumps of a sequence of sibling nodes.
pub open spec fn pretty_seq(s: Seq<DomNode>, depth: nat) -> Seq<char>
    decreases s,
{
    if s.len() == 0 {
        Seq::empty()
    } else {
        proof {
            vstd::seq::axiom_seq_subrange_decreases(s, 0, s.len() - 1);
            vstd::seq::axiom_seq_index_decreases(s, s.len() - 1);
        }
        pretty_seq(s.drop_last(), depth) + pretty(s.last(), depth)
    }
}

/// The nodes of a subtree in pre-order, each with its depth.
pub open spec fn preorder(n: DomNode, depth: nat) -> Seq<(DomNode, nat)>
    decreases n,
{
    seq![(n, depth)] + preorder_seq(n.children, depth + 1)
}

/// The pre-order listings of a sequence of sibling subtrees, one after another.
pub open spec fn preorder_seq(s: Seq<DomNode>, depth: nat) -> Seq<(DomNode, nat)>
    decreases s,
{
    if s.len() == 0 {
        Seq::empty()
    } else {
        proof {
            vstd::seq::axiom_seq_subrange_decreases(s, 0, s.len() - 1);
            vstd::seq::axiom_seq_index_decreases(s, s.len() - 1);
        }
        preorder_seq(s.drop_last(), depth) + preorder(s.last(), depth)
    }
}

/// The lines printed for a listing of nodes, one after another.
pub open spec fn lines_of(ps: Seq<(DomNode, nat)>) -> Seq<char>
    decreases ps.len(),
{
    if ps.len() == 0 {
        Seq::empty()
    } else {
        lines_of(ps.drop_last()) + node_line(ps.last().0, ps.last().1)
    }
}

proof fn lemma_lines_of_append(a: Seq<(DomNode, nat)>, b: Seq<(DomNode, nat)>)
    ensures
        lines_of(a + b) == lines_of(a) + lines_of(b),
    decreases b.len(),
{
    if b.len() == 0 {
        assert(a + b =~= a);
    } else {
        lemma_lines_of_append(a, b.drop_last());
        assert((a + b).drop_last() =~= a + b.drop_last());
        assert((a + b).last() == b.last());
    }
}

proof fn lemma_pretty_lines(n: DomNode, depth: nat)
    ensures
        pretty(n, depth) == lines_of(preorder(n, depth)),
    decreases n,
{
    lemma_pretty_seq_lines(n.children, depth + 1);
    lemma_lines_of_append(seq![(n, depth)], preorder_seq(n.children, depth + 1));
    let one = seq![(n, depth)];
    assert(one.drop_last() =~= Seq::<(DomNode, nat)>::empty());
    assert(lines_of(one) == lines_of(one.drop_last()) + node_line(n, depth));
    assert(lines_of(one) =~= node_line(n, depth));
    assert(pretty(n, depth) == node_line(n, depth) + pretty_seq(n.children, depth + 1));
}

proof fn lemma_pretty_seq_lines(s: Seq<DomNode>, depth: nat)
    ensures
        pretty_seq(s, depth) == lines_of(preorder_seq(s, depth)),
    decreases s,
{
    if s.len() > 0 {
        vstd::seq::axiom_seq_subrange_decreases(s, 0, s.len() - 1);
        vstd::seq::axiom_seq_index_decreases(s, s.len() - 1);
        lemma_pretty_seq_lines(s.drop_last(), depth);
        lemma_pretty_lines(s.last(), depth);
        lemma_lines_of_append(preorder_seq(s.drop_last(), depth), preorder(s.last(), depth));
    }
}

/// The dump is one line per node, in pre-order: a node at depth `k` is
/// printed as `k` levels of indentation, its own text, and a newline, except
/// a text node that is blank once trimmed, which prints nothing.
pub proof fn pretty_print_is_one_line_per_node(n: DomNode, depth: nat)
    ensures
        pretty(n, depth) == lines_of(preorder(n, depth)),
        forall|m: DomNode, k: nat| #[trigger] node_line(m, k).len() == 0 <==> (
            m.kind matches DomKind::Text(t) && trim(t).len() == 0),
        forall|m: DomNode, k: nat| #[trigger] node_line(m, k).len() > 0 ==> {
            &&& node_line(m, k).take(indent(k).len() as int) == indent(k)
            &&& node_line(m, k).last() == '\n'
        },
{
    lemma_pretty_lines(n, depth);
    assert forall|m: DomNode, k: nat| #[trigger] node_line(m, k).len() > 0 implies {
        &&& node_line(m, k).take(indent(k).len() as int) == indent(k)
        &&& node_line(m, k).last() == '\n'
    } by {
        reveal_strlit("#text ");
        reveal_strlit("<!-- ");
        reveal_strlit(" -->\n");
        let l = node_line(m, k);
        let i = indent(k);
        match m.kind {
            DomKind::Text(t) => {
                let rest = "#text "@ + debug_str(truncated(trim(t), 60)) + seq!['\n'];
                assert(l == i + rest);
            },
            DomKind::Comment(t) => {
                let rest = "<!-- "@ + truncated(trim(t), 40) + " -->\n"@;
                assert(l == i + rest);
            },
            DomKind::Element(e) => {
                let rest = seq!['<'] + e.tag_name + attrs_text(e.attributes) + seq!['>', '\n'];
                assert(l == i + rest);
            },
        }
        assert(l.take(i.len() as int) =~= i);
    }
    assert forall|m: DomNode, k: nat| #[trigger] node_line(m, k).len() == 0 <==> (
        m.kind matches DomKind::Text(t) && trim(t).len() == 0) by {
        reveal_strlit("#text ");
        reveal_strlit("<!-- ");
    }
}

/// Render the tree as indented, readable text.
pub fn pretty_print(node: &Node) -> (r: String)
    ensures
        r@ == pretty(node@, 0),
{
    let mut out = String::new();
    let ind = String::new();
    print_node(node, &ind, Ghost(0), &mut out);
    out
}

fn truncate(s: &Vec<char>, max: usize) -> (r: String)
    ensures
        r@ == truncated(s@, max as nat),
{
    if s.len() <= max {
        string_of(s)
    } else {
        let mut r = crate::chars::string_of_range(s, 0, max);
        r.push('…');
        r
    }
}

fn push_chars(out: &mut String, v: &Vec<char>)
    ensures
        final(out)@ == old(out)@ + v@,
{
    crate::chars::push_range(out, v, 0, v.len());
    assert(v@.subrange(0, v.len() as int) == v@);
}

fn print_node(node: &Node, ind: &String, Ghost(depth): Ghost<nat>, out: &mut String)
    requires
        ind@ == indent(depth),
    ensures
        final(out)@ == old(out)@ + pretty(node@, depth as nat),
    decreases node,
{
    proof {
        lemma_nodes_view(node.children@);
    }
    match &node.node_type {
        NodeType::Text(s) => {
            let trimmed = trim_chars(&chars_of(s.as_str()));
            if trimmed.len() > 0 {
                out.append(ind.as_str());
                out.append("#text ");
                let t = truncate(&trimmed, 60);
                let d = debug_quoted(t.as_str());
                out.append(d.as_str());
                out.push('\n');
            }
        },
        NodeType::Comment(s) => {
            out.append(ind.as_str());
            out.append("<!-- ");
            let trimmed = trim_chars(&chars_of(s.as_str()));
            let t = truncate(&trimmed, 40);
            out.append(t.as_str());
            out.append(" -->\n");
        },
        NodeType::Element(e) => {
            out.append(ind.as_str());
            out.push('<');
            out.append(e.tag_name.as_str());
            let ghost attrs = e.attributes@;
            let ghost before = out@;
            let mut i: usize = 0;
            let n = e.attributes.len();
            while i < n
                invariant
                    n == attrs.len(),
                    attrs == e.attributes@,
                    i <= n,
                    out@ == before + attrs_text(attrs.take(i as int)),
                decreases n - i,
            {
                out.push(' ');
                push_chars(out, e.attributes.name_at(i));
                out.push('=');
                out.push('"');
                out.append(e.attributes.value_at(i));
                out.push('"');
                i += 1;
                assert(attrs.take(i as int).drop_last() == attrs.take(i - 1));
            }
            assert(attrs.take(n as int) == attrs);
            out.push('>');
            out.push('\n');
        },
    }
    let ghost start = out@;
    let ghost cs = nodes_view(node.children@);
    let mut child_ind = ind.clone();
    child_ind.append("  ");
    proof {
        reveal_strlit("  ");
        assert(child_ind@ == indent(depth + 1));
    }
    let mut i: usize = 0;
    while i < node.children.len()
        invariant
            i <= node.children.len(),
            cs == nodes_view(node.children@),
            cs.len() == node.children@.len(),
            forall|j: int| 0 <= j < cs.len() ==> #[trigger] cs[j] == node.children@[j]@,
            child_ind@ == indent(depth + 1),
            out@ == start + pretty_seq(cs.take(i as int), depth + 1),
        decreases node.children.len() - i,
    {
        assert(cs.take(i + 1).drop_last() == cs.take(i as int));
        assert(cs.take(i + 1).last() == cs[i as int]);
        assert(cs[i as int] == node.children@[i as int]@);
        print_node(&node.children[i], &child_ind, Ghost(depth + 1), out);
        i += 1;
    }
    assert(cs.take(i as int) == cs);
}

} // verus!
