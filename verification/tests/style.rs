use robin::css::{self, Color, Number, Unit, Value};
use robin::html;
use robin::style::{
    document_stylesheet, inline_css, inheritable_subset, normalize_color, style_tree,
    user_agent_stylesheet, Display, PropertyMap, StyledNode,
};

fn style(html_src: &str, css_src: &str) -> String {
    // Helper that returns a debug dump of (tag -> color) for inspection.
    let dom = html::parse(html_src);
    let sheet = css::parse(css_src);
    let styled = style_tree(&dom, &sheet);
    format!("{:?}", styled.value("color"))
}

// Depth-first search for the first element with the given tag.
fn find_tag<'a, 'b>(node: &'b StyledNode<'a>, tag: &str) -> Option<&'b StyledNode<'a>> {
    if node.node.tag_name() == Some(tag) {
        return Some(node);
    }
    node.children.iter().find_map(|c| find_tag(c, tag))
}

#[test]
fn author_rules_override_user_agent() {
    let dom = html::parse("<a href=x>link</a>");
    let sheet = css::parse("a { color: red; }");
    let styled = style_tree(&dom, &sheet);
    // Walk to the <a>.
    let body_or_a = find_tag(&styled, "a").expect("an <a> in the tree");
    assert_eq!(body_or_a.value("color"), Some(Value::ColorValue(Color::rgb(255, 0, 0))));
}

#[test]
fn specificity_decides_between_author_rules() {
    let dom = html::parse("<p id=lead class=intro>hi</p>");
    let sheet = css::parse("p { color: red; } .intro { color: green; } #lead { color: blue; }");
    let styled = style_tree(&dom, &sheet);
    let p = find_tag(&styled, "p").unwrap();
    assert_eq!(p.value("color"), Some(Value::ColorValue(Color::rgb(0, 0, 255))));
}

#[test]
fn inline_style_wins() {
    let dom = html::parse("<p id=lead style='color: orange'>hi</p>");
    let sheet = css::parse("#lead { color: blue; }");
    let styled = style_tree(&dom, &sheet);
    let p = find_tag(&styled, "p").unwrap();
    assert_eq!(p.value("color"), Some(Value::ColorValue(Color::rgb(255, 165, 0))));
}

#[test]
fn color_is_inherited() {
    let dom = html::parse("<div style='color: green'><span>child</span></div>");
    let sheet = css::parse("");
    let styled = style_tree(&dom, &sheet);
    let span = find_tag(&styled, "span").unwrap();
    assert_eq!(span.value("color"), Some(Value::ColorValue(Color::rgb(0, 128, 0))));
}

#[test]
fn ua_stylesheet_sets_display() {
    let dom = html::parse("<div>a</div><span>b</span><script>x</script>");
    let sheet = css::parse("");
    let styled = style_tree(&dom, &sheet);
    assert_eq!(find_tag(&styled, "div").unwrap().display(), Display::Block);
    assert_eq!(find_tag(&styled, "span").unwrap().display(), Display::Inline);
    assert_eq!(find_tag(&styled, "script").unwrap().display(), Display::Hidden);
}

#[test]
fn presentational_attributes_become_styles() {
    let dom = html::parse("<table bgcolor=#ff6600 width=85%><tr><td>x</td></tr></table>");
    let styled = style_tree(&dom, &css::parse(""));
    let table = find_tag(&styled, "table").unwrap();
    assert_eq!(
        table.value("background-color"),
        Some(Value::ColorValue(Color::rgb(255, 102, 0)))
    );
    assert_eq!(
        table.value("width"),
        Some(Value::Length(Number::parse("85").unwrap(), Unit::Percent))
    );
}

#[test]
fn author_css_overrides_presentational_attribute() {
    let dom = html::parse("<td bgcolor=red>x</td>");
    let styled = style_tree(&dom, &css::parse("td { background-color: green; }"));
    let td = find_tag(&styled, "td").unwrap();
    assert_eq!(
        td.value("background-color"),
        Some(Value::ColorValue(Color::rgb(0, 128, 0)))
    );
}

#[test]
fn unmatched_color_is_none_at_root() {
    assert_eq!(style("<html></html>", ""), "None");
}

#[test]
fn user_agent_stylesheet_parses() {
    let ua = user_agent_stylesheet();
    assert!(ua.rules.len() > 20);
}

#[test]
fn bare_hex_bgcolor_gets_a_hash() {
    assert_eq!(normalize_color(" ff6600 "), "#ff6600");
    assert_eq!(normalize_color("#abc"), "#abc");
    assert_eq!(normalize_color("red"), "red");
    assert_eq!(normalize_color("1234567"), "1234567");
    assert_eq!(normalize_color(""), "");
    let dom = html::parse("<td bgcolor=ff6600>x</td>");
    let styled = style_tree(&dom, &css::parse(""));
    assert_eq!(
        find_tag(&styled, "td").unwrap().value("background-color"),
        Some(Value::ColorValue(Color::rgb(255, 102, 0)))
    );
}

#[test]
fn text_nodes_carry_only_inherited_values() {
    let dom = html::parse("<div style='color: green; margin: 4px; background: red'>t</div>");
    let styled = style_tree(&dom, &css::parse(""));
    let div = find_tag(&styled, "div").unwrap();
    assert!(div.value("margin").is_some());
    let text = &div.children[0];
    assert!(text.node.text_content().is_some());
    assert_eq!(text.value("color"), Some(Value::ColorValue(Color::rgb(0, 128, 0))));
    assert_eq!(text.value("margin"), None);
    assert_eq!(text.value("background"), None);
}

#[test]
fn later_rule_wins_a_specificity_tie() {
    let dom = html::parse("<p class=a>x</p>");
    let styled = style_tree(&dom, &css::parse(".a { color: red } .a { color: blue }"));
    assert_eq!(
        find_tag(&styled, "p").unwrap().value("color"),
        Some(Value::ColorValue(Color::rgb(0, 0, 255)))
    );
}

#[test]
fn lookup_falls_back() {
    let dom = html::parse("<p>x</p>");
    let styled = style_tree(&dom, &css::parse(""));
    let p = find_tag(&styled, "p").unwrap();
    let fallback = Value::Keyword("none".to_string());
    assert_eq!(p.lookup("float", &fallback), fallback);
    assert_eq!(p.lookup("display", &fallback), Value::Keyword("block".to_string()));
}

#[test]
fn unknown_display_counts_as_block() {
    let dom = html::parse("<span>x</span><b>y</b>");
    let styled = style_tree(&dom, &css::parse("span { display: flex } b { display: list-item }"));
    assert_eq!(find_tag(&styled, "span").unwrap().display(), Display::Block);
    assert_eq!(find_tag(&styled, "b").unwrap().display(), Display::ListItem);
}

#[test]
fn inline_style_sheets_are_collected_in_order() {
    let dom = html::parse("<style>a{color:red}</style><p>x</p><style>b{color:blue}</style>");
    assert_eq!(inline_css(&dom), "a{color:red}\nb{color:blue}\n");
    let sheet = document_stylesheet(&dom);
    assert_eq!(sheet.rules.len(), 2);
}

#[test]
fn property_maps_replace_and_restrict() {
    let mut m = PropertyMap::new();
    m.insert("color".to_string(), Value::Keyword("a".to_string()));
    m.insert("margin".to_string(), Value::Keyword("b".to_string()));
    m.insert("color".to_string(), Value::Keyword("c".to_string()));
    assert_eq!(m.get("color"), Some(&Value::Keyword("c".to_string())));
    let sub = inheritable_subset(&m);
    assert_eq!(sub.get("color"), Some(&Value::Keyword("c".to_string())));
    assert_eq!(sub.get("margin"), None);
}

#[test]
fn margins_do_not_pass_to_child_elements() {
    let dom = html::parse("<div style='margin: 3px; background: red; color: blue'><span>x</span></div>");
    let styled = style_tree(&dom, &css::parse(""));
    let span = find_tag(&styled, "span").unwrap();
    assert_eq!(span.value("margin"), None);
    assert_eq!(span.value("background"), None);
    assert_eq!(span.value("color"), Some(Value::ColorValue(Color::rgb(0, 0, 255))));
}
