//! The box tree: which boxes layout places, before any geometry.
//!
//! Every element that is displayed generates a box: block-level elements
//! (`block`, `list-item`, and everything not modelled, such as `flex`) a block
//! box, `inline` elements an inline box; `display: none` elements generate
//! nothing, and neither does their subtree (the root is always displayed).
//! Runs of inline children of a box are wrapped in anonymous boxes, so that a
//! box holds block-level boxes and anonymous boxes, and an anonymous box holds
//! only inline boxes. Sizes and positions are computed later, by the front
//! end.
use vstd::prelude::*;
use crate::css::{CssValue, Value};
use crate::style::{Display, StyledNode, StyledTree, display_of, lemma_styled_views, styled_views};

verus! {

/// What generated a box.
#[derive(Debug)]
pub enum BoxType<'a> {
    Block(&'a StyledNode<'a>),
    Inline(&'a StyledNode<'a>),
    /// A wrapper that holds a run of inline children of a block.
    Anonymous,
}

/// A node of the box tree.
#[derive(Debug)]
pub struct BoxNode<'a> {
    pub box_type: BoxType<'a>,
    pub children: Vec<BoxNode<'a>>,
}

/// The model of what generated a box.
pub enum BoxKind {
    Block(StyledTree),
    Inline(StyledTree),
    Anonymous,
}

/// The model of a box tree.
pub struct BoxModel {
    pub kind: BoxKind,
    pub children: Seq<BoxModel>,
}

pub open spec fn kind_view<'a>(t: BoxType<'a>) -> BoxKind {
    match t {
        BoxType::Block(n) => BoxKind::Block(n@),
        BoxType::Inline(n) => BoxKind::Inline(n@),
        BoxType::Anonymous => BoxKind::Anonymous,
    }
}

/// The model of a box.
pub open spec fn box_view<'a>(b: BoxNode<'a>) -> BoxModel
    decreases b,
{
    BoxModel { kind: kind_view(b.box_type), children: box_views(b.children@) }
}

/// The models of a sequence of boxes.
pub open spec fn box_views<'a>(s: Seq<BoxNode<'a>>) -> Seq<BoxModel>
    decreases s,
{
    if s.len() == 0 {
        Seq::empty()
    } else {
        proof {
            vstd::seq::axiom_seq_subrange_decreases(s, 0, s.len() - 1);
            vstd::seq::axiom_seq_index_decreases(s, s.len() - 1);
        }
        box_views(s.drop_last()).push(box_view(s.last()))
    }
}

impl<'a> View for BoxNode<'a> {
    type V = BoxModel;

    open spec fn view(&self) -> BoxModel {
        box_view(*self)
    }
}

pub proof fn lemma_box_views<'a>(s: Seq<BoxNode<'a>>)
    ensures
        #[trigger] box_views(s).len() == s.len(),
        forall|i: int| 0 <= i < s.len() ==> #[trigger] box_views(s)[i] == s[i]@,
    decreases s.len(),
{
    if s.len() > 0 {
        lemma_box_views(s.drop_last());
    }
}

/// Whether new inline boxes go into the last of `boxes` (an anonymous or an
/// inline box) rather than into a new anonymous box.
pub open spec fn joins_last(boxes: Seq<BoxModel>) -> bool {
    boxes.len() > 0 && (boxes.last().kind is Anonymous || boxes.last().kind is Inline)
}

/// `boxes` with the inline box `b` added: into the last box when that takes
/// inline children, else into a new anonymous box.
pub open spec fn add_inline(boxes: Seq<BoxModel>, b: BoxModel) -> Seq<BoxModel> {
    if joins_last(boxes) {
        boxes.update(
            boxes.len() - 1,
            BoxModel { kind: boxes.last().kind, children: boxes.last().children.push(b) },
        )
    } else {
        boxes.push(BoxModel { kind: BoxKind::Anonymous, children: seq![b] })
    }
}

/// The box generated by the styled node `t` (a root is always displayed).
pub open spec fn box_model(t: StyledTree) -> BoxModel
    decreases t,
{
    BoxModel {
        kind: if display_of(t.values) == Display::Inline {
            BoxKind::Inline(t)
        } else {
            BoxKind::Block(t)
        },
        children: child_boxes(t.children),
    }
}

/// The boxes generated by a sequence of sibling styled nodes.
pub open spec fn child_boxes(ts: Seq<StyledTree>) -> Seq<BoxModel>
    decreases ts,
{
    if ts.len() == 0 {
        Seq::empty()
    } else {
        proof {
            vstd::seq::axiom_seq_subrange_decreases(ts, 0, ts.len() - 1);
            vstd::seq::axiom_seq_index_decreases(ts, ts.len() - 1);
        }
        let acc = child_boxes(ts.drop_last());
        let t = ts.last();
        match display_of(t.values) {
            Display::Block | Display::ListItem => acc.push(box_model(t)),
            Display::Inline => add_inline(acc, box_model(t)),
            Display::Hidden => acc,
        }
    }
}

/// Add the inline box `b` to `children`: into the last box when that takes
/// inline children, else into a new anonymous box.
fn push_inline<'a>(children: &mut Vec<BoxNode<'a>>, b: BoxNode<'a>)
    ensures
        box_views(final(children)@) == add_inline(box_views(old(children)@), b@),
{
    proof {
        lemma_box_views(children@);
    }
    let n = children.len();
    let joins = if n > 0 {
        match &children[n - 1].box_type {
            BoxType::Anonymous => true,
            BoxType::Inline(_) => true,
            BoxType::Block(_) => false,
        }
    } else {
        false
    };
    let ghost before = children@;
    let ghost bv = b@;
    if joins {
        let mut last = children.pop().unwrap();
        let ghost last_before = last;
        assert(before.drop_last() == children@);
        last.children.push(b);
        proof {
            assert(last.children@.drop_last() == last_before.children@);
            assert(box_views(last.children@) == box_views(last_before.children@).push(bv));
        }
        children.push(last);
        proof {
            assert(children@.drop_last() == before.drop_last());
            lemma_box_views(children@);
            lemma_box_views(before);
            assert(box_views(children@) =~= add_inline(box_views(before), bv));
        }
    } else {
        let mut inner: Vec<BoxNode<'a>> = Vec::new();
        inner.push(b);
        let anon = BoxNode { box_type: BoxType::Anonymous, children: inner };
        proof {
            lemma_box_views(inner@);
            assert(box_views(inner@) =~= seq![bv]);
        }
        let ghost av = anon@;
        assert(av == BoxModel { kind: BoxKind::Anonymous, children: seq![bv] });
        children.push(anon);
        proof {
            assert(children@.drop_last() == before);
            assert(children@.last() == anon);
            assert(box_views(children@) == box_views(before).push(av));
            lemma_box_views(before);
            if n > 0 {
                assert(box_views(before).last() == before[n - 1]@);
            }
            assert(!joins_last(box_views(before)));
        }
    }
}

/// Translate the styled tree into a tree of boxes, wrapping runs of inline
/// children in anonymous boxes.
pub fn build_layout_tree<'a>(style_node: &'a StyledNode<'a>) -> (r: BoxNode<'a>)
    ensures
        r@ == box_model(style_node@),
    decreases style_node,
{
    proof {
        lemma_styled_views(style_node.children@);
    }
    let box_type = match style_node.display() {
        Display::Inline => BoxType::Inline(style_node),
        _ => BoxType::Block(style_node),
    };
    let ghost cs = styled_views(style_node.children@);
    let mut children: Vec<BoxNode<'a>> = Vec::new();
    let mut i: usize = 0;
    while i < style_node.children.len()
        invariant
            i <= style_node.children@.len(),
            cs == styled_views(style_node.children@),
            cs.len() == style_node.children@.len(),
            forall|j: int| 0 <= j < cs.len() ==> #[trigger] cs[j] == style_node.children@[j]@,
            box_views(children@) == child_boxes(cs.take(i as int)),
        decreases style_node.children.len() - i,
    {
        assert(cs.take(i + 1).drop_last() == cs.take(i as int));
        assert(cs.take(i + 1).last() == cs[i as int]);
        let child = &style_node.children[i];
        match child.display() {
            Display::Block | Display::ListItem => {
                let b = build_layout_tree(child);
                let ghost before = children@;
                children.push(b);
                assert(children@.drop_last() == before);
            },
            Display::Inline => {
                let b = build_layout_tree(child);
                push_inline(&mut children, b);
            },
            Display::Hidden => {},
        }
        i += 1;
    }
    assert(cs.take(i as int) == cs);
    BoxNode { box_type, children }
}

impl<'a> BoxNode<'a> {
    /// The styled node this box came from (anonymous boxes have none).
    pub fn styled_node(&self) -> (r: Option<&'a StyledNode<'a>>)
        ensures
            match r {
                Some(n) => self@.kind == BoxKind::Block(n@) || self@.kind == BoxKind::Inline(n@),
                None => self@.kind is Anonymous,
            },
    {
        match self.box_type {
            BoxType::Block(n) => Some(n),
            BoxType::Inline(n) => Some(n),
            BoxType::Anonymous => None,
        }
    }
}

// --- Laws of the box tree ------------------------------------------------------------------

/// A box below the root: block boxes come from displayed, non-inline nodes
/// and inline boxes from inline nodes.
pub open spec fn displayed(b: BoxModel) -> bool {
    match b.kind {
        BoxKind::Block(t) => display_of(t.values) != Display::Hidden && display_of(t.values)
            != Display::Inline,
        BoxKind::Inline(t) => display_of(t.values) == Display::Inline,
        BoxKind::Anonymous => true,
    }
}

/// The nesting rules of the box tree, at `b` and below: an anonymous box holds
/// one or more inline boxes and nothing else; any other box holds block and
/// anonymous boxes only, never two anonymous boxes side by side; and no
/// `display: none` node has a box.
pub open spec fn well_nested(b: BoxModel) -> bool
    decreases b,
{
    &&& forall|i: int| 0 <= i < b.children.len() ==> displayed(#[trigger] b.children[i])
    &&& forall|i: int| 0 <= i < b.children.len() ==> well_nested(#[trigger] b.children[i])
    &&& if b.kind is Anonymous {
        &&& b.children.len() > 0
        &&& forall|i: int| 0 <= i < b.children.len() ==> (#[trigger] b.children[i]).kind is Inline
    } else {
        &&& forall|i: int| 0 <= i < b.children.len() ==> !((#[trigger] b.children[i]).kind is Inline)
        &&& forall|i: int|
            0 <= i < b.children.len() - 1 ==> !((#[trigger] b.children[i]).kind is Anonymous
                && b.children[i + 1].kind is Anonymous)
    }
}

/// The children of a non-anonymous box, as [`well_nested`] wants them.
pub open spec fn block_children_ok(cs: Seq<BoxModel>) -> bool {
    &&& forall|i: int| 0 <= i < cs.len() ==> displayed(#[trigger] cs[i])
    &&& forall|i: int| 0 <= i < cs.len() ==> well_nested(#[trigger] cs[i])
    &&& forall|i: int| 0 <= i < cs.len() ==> !((#[trigger] cs[i]).kind is Inline)
    &&& forall|i: int|
        0 <= i < cs.len() - 1 ==> !((#[trigger] cs[i]).kind is Anonymous && cs[i + 1].kind is Anonymous)
}

proof fn lemma_box_model_nested(t: StyledTree)
    ensures
        well_nested(box_model(t)),
    decreases t,
{
    lemma_child_boxes_nested(t.children);
}

proof fn lemma_child_boxes_nested(ts: Seq<StyledTree>)
    ensures
        block_children_ok(child_boxes(ts)),
    decreases ts,
{
    if ts.len() > 0 {
        vstd::seq::axiom_seq_subrange_decreases(ts, 0, ts.len() - 1);
        vstd::seq::axiom_seq_index_decreases(ts, ts.len() - 1);
        lemma_child_boxes_nested(ts.drop_last());
        let acc = child_boxes(ts.drop_last());
        let t = ts.last();
        lemma_box_model_nested(t);
        let bm = box_model(t);
        let r = child_boxes(ts);
        match display_of(t.values) {
            Display::Block | Display::ListItem => {
                assert(r == acc.push(bm));
                assert forall|i: int| 0 <= i < r.len() - 1 implies !((#[trigger] r[i]).kind is Anonymous
                    && r[i + 1].kind is Anonymous) by {
                    assert(r[i] == acc[i]);
                    if i + 1 < acc.len() {
                        assert(r[i + 1] == acc[i + 1]);
                    }
                }
                assert forall|i: int| 0 <= i < r.len() implies displayed(#[trigger] r[i]) && well_nested(r[i])
                    && !(r[i].kind is Inline) by {
                    if i < acc.len() {
                        assert(r[i] == acc[i]);
                    }
                }
            },
            Display::Inline => {
                assert(bm.kind is Inline);
                if joins_last(acc) {
                    let l = acc.last();
                    assert(l.kind is Anonymous);
                    let nl = BoxModel { kind: l.kind, children: l.children.push(bm) };
                    assert(r == acc.update(acc.len() - 1, nl));
                    assert(well_nested(l));
                    assert forall|i: int| 0 <= i < nl.children.len() implies displayed(#[trigger] nl.children[i])
                        && well_nested(nl.children[i]) && nl.children[i].kind is Inline by {
                        if i < l.children.len() {
                            assert(nl.children[i] == l.children[i]);
                        }
                    }
                    assert(well_nested(nl));
                    assert forall|i: int| 0 <= i < r.len() implies displayed(#[trigger] r[i]) && well_nested(r[i])
                        && !(r[i].kind is Inline) by {
                        if i < acc.len() - 1 {
                            assert(r[i] == acc[i]);
                        }
                    }
                    assert forall|i: int| 0 <= i < r.len() - 1 implies !((#[trigger] r[i]).kind is Anonymous
                        && r[i + 1].kind is Anonymous) by {
                        assert(r[i] == acc[i]);
                        if i + 1 < acc.len() - 1 {
                            assert(r[i + 1] == acc[i + 1]);
                        } else {
                            assert(acc[i + 1].kind is Anonymous);
                        }
                    }
                } else {
                    let nb = BoxModel { kind: BoxKind::Anonymous, children: seq![bm] };
                    assert(r == acc.push(nb));
                    assert forall|i: int| 0 <= i < nb.children.len() implies displayed(#[trigger] nb.children[i])
                        && well_nested(nb.children[i]) && nb.children[i].kind is Inline by {
                        assert(nb.children[i] == bm);
                    }
                    assert(well_nested(nb));
                    assert forall|i: int| 0 <= i < r.len() implies displayed(#[trigger] r[i]) && well_nested(r[i])
                        && !(r[i].kind is Inline) by {
                        if i < acc.len() {
                            assert(r[i] == acc[i]);
                        }
                    }
                    assert forall|i: int| 0 <= i < r.len() - 1 implies !((#[trigger] r[i]).kind is Anonymous
                        && r[i + 1].kind is Anonymous) by {
                        assert(r[i] == acc[i]);
                        if i + 1 < acc.len() {
                            assert(r[i + 1] == acc[i + 1]);
                        } else {
                            assert(!(acc.last().kind is Anonymous));
                        }
                    }
                }
            },
            Display::Hidden => {
                assert(r == acc);
            },
        }
    }
}

/// The box tree follows the nesting rules of block layout: anonymous boxes
/// hold only (one or more) inline boxes, every other box holds only block and
/// anonymous boxes with no two anonymous boxes side by side, and no
/// `display: none` node below the root has a box.
pub proof fn box_tree_is_well_nested(t: StyledTree)
    ensures
        well_nested(box_model(t)),
{
    lemma_box_model_nested(t);
}

// --- Box sizes ---------------------------------------------------------------------------

/// Whether a value sizes a box: the keyword `auto` or a length.
pub open spec fn is_sizing(v: CssValue) -> bool {
    v == CssValue::Keyword("auto"@) || v is Length
}

/// The value of the first of `names` that `m` sets to `auto` or a length.
pub open spec fn first_sizing(m: Map<Seq<char>, CssValue>, names: Seq<Seq<char>>) -> Option<CssValue>
    decreases names.len(),
{
    if names.len() == 0 {
        None
    } else if m.contains_key(names[0]) && is_sizing(m[names[0]]) {
        Some(m[names[0]])
    } else {
        first_sizing(m, names.drop_first())
    }
}

/// The first of the named properties (e.g. `margin-left`, then the `margin`
/// shorthand) that is `auto` or a length; `None` when there is no style or
/// none of them is, and the caller's default applies.
pub fn lookup_length(style: Option<&StyledNode>, names: &[&str]) -> (r: Option<Value>)
    ensures
        match style {
            Some(s) => match r {
                Some(v) => first_sizing(s@.values, names@.map_values(|n: &str| n@)) == Some(v@),
                None => first_sizing(s@.values, names@.map_values(|n: &str| n@)) is None,
            },
            None => r is None,
        },
{
    let st = match style {
        Some(s) => s,
        None => {
            return None;
        },
    };
    let ghost all = names@.map_values(|n: &str| n@);
    let mut i: usize = 0;
    assert(all.skip(0) == all);
    while i < names.len()
        invariant
            i <= names@.len(),
            all == names@.map_values(|n: &str| n@),
            style == Some(st),
            first_sizing(st@.values, all) == first_sizing(st@.values, all.skip(i as int)),
        decreases names.len() - i,
    {
        assert(all.skip(i as int)[0] == names@[i as int]@);
        assert(all.skip(i as int).drop_first() == all.skip(i + 1));
        match st.value(names[i]) {
            Some(v) => {
                let is_auto = match v.keyword() {
                    Some(k) => crate::chars::str_eq_chars("auto", &crate::chars::chars_of(k)),
                    None => false,
                };
                if is_auto {
                    return Some(v);
                }
                if let Value::Length(_, _) = &v {
                    return Some(v);
                }
            },
            None => {},
        }
        i += 1;
    }
    None
}

} // verus!
