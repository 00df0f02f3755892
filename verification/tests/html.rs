use robin::dom::pretty_print;
use robin::html::parse;

#[test]
fn parses_basic_nesting() {
    let dom = parse("<p>Hello <b>world</b>!</p>");
    let dump = pretty_print(&dom);
    assert!(dump.contains("<p>"));
    assert!(dump.contains("<b>"));
    assert_eq!(dom.inner_text(), "Hello world!");
}

#[test]
fn handles_void_and_self_closing() {
    let dom = parse("<div>a<br>b<img src=x />c</div>");
    // br and img must not swallow following siblings as children.
    assert_eq!(dom.inner_text(), "abc");
    let dump = pretty_print(&dom);
    assert!(dump.contains("<br>"));
    assert!(dump.contains("<img src=\"x\">"));
}

#[test]
fn self_closed_element_takes_no_children() {
    let dom = parse("<div><span/>x</div>");
    let div = dom
        .descendants()
        .into_iter()
        .find(|n| n.tag_name() == Some("div"))
        .unwrap();
    assert_eq!(div.children.len(), 2);
    assert_eq!(div.children[0].tag_name(), Some("span"));
    assert!(div.children[0].children.is_empty());
    assert_eq!(div.children[1].inner_text(), "x");
}

#[test]
fn handles_void_svgs() {
    let dom = parse("<div>a<br>b<svg><circle/><path/>_after_</svg>c</div>");
    assert_eq!(dom.inner_text(), "ab_after_c");
    let dump = pretty_print(&dom);
    assert!(dump.contains("<svg>"));
    assert!(dump.contains("<circle>"));

    for node in dom.descendants() {
        if let Some("svg") = node.tag_name() {
            assert_eq!(node.children.len(), 3);
            assert_eq!(node.children[0].tag_name(), Some("circle"));
            assert_eq!(node.children[1].tag_name(), Some("path"));
            break;
        }
    }
}

#[test]
fn implied_end_tags_for_list_items() {
    let dom = parse("<ul><li>one<li>two<li>three</ul>");
    let dump = pretty_print(&dom);
    // Three siblings, not nested inside each other.
    assert_eq!(dump.matches("<li>").count(), 3);
    assert_eq!(dom.inner_text(), "onetwothree");
}

#[test]
fn recovers_from_misnesting() {
    // Classic mis-nest: </b> appears after the </i> that should close first.
    let dom = parse("<p><b><i>x</b></i></p>");
    assert_eq!(dom.inner_text(), "x");
}

#[test]
fn script_body_is_not_parsed_as_html() {
    let dom = parse("<script>if (a < b && c > d) {}</script><p>after</p>");
    // The '<' inside the script must not start a tag.
    assert!(dom.inner_text().contains("after"));
    let dump = pretty_print(&dom);
    assert!(dump.contains("<script>"));
    assert!(dump.contains("<p>"));
}

#[test]
fn decodes_entities() {
    let dom = parse("<p>Fish &amp; chips &mdash; &#163;5 &#x263A;</p>");
    assert_eq!(dom.inner_text(), "Fish & chips — £5 ☺");

    let dom2 = parse("<p>&hearts;</p");
    assert_eq!(dom2.inner_text(), "♥");
}

#[test]
fn skips_doctype_and_comments_render_clean() {
    let dom = parse("<!DOCTYPE html><!-- hi --><html><body>x</body></html>");
    assert_eq!(dom.tag_name(), Some("html"));
    assert_eq!(dom.inner_text(), "x");
}

#[test]
fn multibyte_in_script_and_comments_does_not_panic() {
    // Bytes of '·' and '-' must never be sliced mid-character.
    let dom = parse("<style>/* π · ½ — */ a{}</style><!-- café · résumé --><p>after·text</p>");
    assert!(dom.inner_text().contains("after·text"));
}

#[test]
fn unquoted_attributes() {
    let dom = parse("<a href=/about class=nav>about</a>");
    let dump = pretty_print(&dom);
    assert!(dump.contains("class=\"nav\""));
    assert!(dump.contains("href=\"/about\""));
}

#[test]
fn document_without_html_gets_a_synthetic_root() {
    let dom = parse("<p>a</p><p>b</p>");
    assert_eq!(dom.tag_name(), Some("html"));
    assert_eq!(dom.children.len(), 2);
    let empty = parse("");
    assert_eq!(empty.tag_name(), Some("html"));
    assert_eq!(empty.children.len(), 0);
}

#[test]
fn void_elements_stay_empty() {
    let dom = parse("<div><br>text<hr><p>para</p><img src=a>tail</div>");
    for node in dom.descendants() {
        if let Some(t) = node.tag_name() {
            if t == "br" || t == "hr" || t == "img" {
                assert!(node.children.is_empty(), "{t} has children");
            }
        }
    }
}

#[test]
fn stray_end_tag_is_ignored() {
    let dom = parse("<p>a</div>b</p>");
    assert_eq!(dom.inner_text(), "ab");
    assert_eq!(pretty_print(&dom).matches("<p>").count(), 1);
}

#[test]
fn unknown_entities_and_lone_ampersands_are_kept() {
    let dom = parse("<p>a & b &bogus; &#xZZ; c</p>");
    assert_eq!(dom.inner_text(), "a & b &bogus; &#xZZ; c");
}

#[test]
fn title_text_decodes_but_script_text_does_not() {
    let dom = parse("<title>A &amp; B</title><script>x &amp; y</script>");
    assert_eq!(dom.inner_text(), "A & Bx &amp; y");
}

#[test]
fn uppercase_tags_and_attributes_are_lower_cased() {
    let dom = parse("<DIV ID=main>x</DIV>");
    let dump = pretty_print(&dom);
    assert!(dump.contains("<div id=\"main\">"), "got {dump}");
}

#[test]
fn paragraph_closes_on_block_start() {
    let dom = parse("<p>one<div>two</div>");
    // The div is a sibling of the p, not its child.
    let p = dom.descendants().into_iter().find(|n| n.tag_name() == Some("p")).unwrap();
    assert_eq!(p.inner_text(), "one");
}

#[test]
fn text_without_ampersands_is_kept_verbatim() {
    let dom = parse("<p>plain text; 100% done, ok?</p>");
    assert_eq!(dom.inner_text(), "plain text; 100% done, ok?");
}

#[test]
fn single_html_element_is_kept_as_the_root() {
    let dom = parse("<!-- lead --><html lang=en><body>x</body></html>");
    assert_eq!(dom.tag_name(), Some("html"));
    assert_eq!(dom.element().unwrap().get_attribute("lang"), Some("en"));
    assert_eq!(dom.inner_text(), "x");
}

#[test]
fn root_is_synthesized_around_the_top_level() {
    let dom = parse("<html id=a></html><html id=b></html>t");
    assert_eq!(dom.tag_name(), Some("html"));
    assert_eq!(dom.element().unwrap().get_attribute("id"), None);
    assert_eq!(dom.children.len(), 3);
    assert_eq!(dom.children[0].element().unwrap().get_attribute("id"), Some("a"));
    assert_eq!(dom.children[1].element().unwrap().get_attribute("id"), Some("b"));
    assert_eq!(dom.children[2].inner_text(), "t");
}
