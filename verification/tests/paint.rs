use robin::css::{self, Color, Value};
use robin::html;
use robin::paint::color_value;
use robin::style::style_tree;
use robin::text::{face_for, Face};

#[test]
fn first_colour_property_wins() {
    let dom = html::parse("<div>x</div>");
    let styled = style_tree(
        &dom,
        &css::parse("div { background: #ff6600; border-color: thin; color: rgb(1, 2, 3) }"),
    );
    let div = styled.children.iter().find(|c| c.node.tag_name() == Some("div")).unwrap();
    assert_eq!(
        color_value(div, &["background-color", "background"]),
        Some(Value::ColorValue(Color::rgb(255, 102, 0)))
    );
    assert_eq!(
        color_value(div, &["border-color", "border-top-color", "color"]),
        Some(Value::ColorFunction("rgb".to_string(), "1, 2, 3".to_string()))
    );
    assert_eq!(color_value(div, &["outline-color"]), None);
}

#[test]
fn monospace_face_wins_over_styles() {
    assert_eq!(face_for(true, true, true), Face::Mono);
    assert_eq!(face_for(true, true, false), Face::BoldItalic);
    assert_eq!(face_for(true, false, false), Face::Bold);
    assert_eq!(face_for(false, true, false), Face::Italic);
    assert_eq!(face_for(false, false, false), Face::Regular);
}
