use robin::css;
use robin::html;
use robin::css::{Number, Unit, Value};
use robin::layout::{build_layout_tree, lookup_length, BoxNode, BoxType};
use robin::style::style_tree;

fn shape(b: &BoxNode, out: &mut String) {
    match b.box_type {
        BoxType::Block(n) => out.push_str(&format!("B{}", n.node.tag_name().unwrap_or("?"))),
        BoxType::Inline(n) => out.push_str(&format!("I{}", n.node.tag_name().unwrap_or("#"))),
        BoxType::Anonymous => out.push('A'),
    }
    if !b.children.is_empty() {
        out.push('(');
        for c in &b.children {
            shape(c, out);
            out.push(' ');
        }
        out.push(')');
    }
}

#[test]
fn inline_runs_are_wrapped_in_anonymous_boxes() {
    let dom = html::parse("<div>a<b>b</b><p>c</p>d<script>x</script></div>");
    let styled = style_tree(&dom, &css::parse(""));
    let root = build_layout_tree(&styled);
    let mut out = String::new();
    shape(&root, &mut out);
    assert_eq!(out, "Bhtml(Bdiv(A(I# Ib(A(I# ) ) ) Bp(A(I# ) ) A(I# ) ) )");
}

#[test]
fn hidden_root_is_still_a_block() {
    let dom = html::parse("<p>x</p>");
    let styled = style_tree(&dom, &css::parse("html { display: none }"));
    let root = build_layout_tree(&styled);
    assert!(matches!(root.box_type, BoxType::Block(_)));
    assert!(root.styled_node().is_some());
    assert_eq!(root.children.len(), 1);
    assert!(matches!(root.children[0].box_type, BoxType::Block(_)));
}

#[test]
fn box_sizes_take_the_first_length_or_auto() {
    let dom = html::parse("<div>x</div>");
    let styled = style_tree(
        &dom,
        &css::parse("div { margin: 5px; margin-left: auto; padding-left: red; padding: 2em }"),
    );
    let div = styled.children.iter().find(|c| c.node.tag_name() == Some("div")).unwrap();
    assert_eq!(lookup_length(Some(div), &["margin-left", "margin"]), Some(Value::Keyword("auto".to_string())));
    assert_eq!(
        lookup_length(Some(div), &["margin-right", "margin"]),
        Some(Value::Length(Number::parse("5").unwrap(), Unit::Px))
    );
    assert_eq!(
        lookup_length(Some(div), &["padding-left", "padding"]),
        Some(Value::Length(Number::parse("2").unwrap(), Unit::Em))
    );
    assert_eq!(lookup_length(Some(div), &["border-width"]), None);
    assert_eq!(lookup_length(None, &["margin"]), None);
}
