use robin::dom::{comment, elem, pretty_print, text, AttrMap, ClassList, Node};

fn attrs(pairs: &[(&str, &str)]) -> AttrMap {
    let mut m = AttrMap::new();
    for (k, v) in pairs {
        m.insert(k.chars().collect(), v.to_string());
    }
    m
}

#[test]
fn elements_expose_id_and_classes() {
    let node = elem("p", attrs(&[("id", "lead"), ("class", "a b c")]), vec![]);
    let e = node.element().unwrap();
    assert_eq!(e.id(), Some("lead"));
    assert!(e.classes().contains("b"));
    assert_eq!(e.classes().len(), 3);
}

#[test]
fn inner_text_concatenates_descendants() {
    let tree = elem(
        "p",
        AttrMap::new(),
        vec![text("Hello, "), elem("b", AttrMap::new(), vec![text("world")]), text("!")],
    );
    assert_eq!(tree.inner_text(), "Hello, world!");
}

#[test]
fn pretty_print_is_stable_and_indented() {
    let tree = elem("div", attrs(&[("class", "box")]), vec![text("hi")]);
    let dump = pretty_print(&tree);
    assert_eq!(dump, "<div class=\"box\">\n  #text \"hi\"\n");
}

#[test]
fn attribute_written_twice_keeps_the_last_value() {
    let mut m = AttrMap::new();
    m.insert("href".chars().collect(), "/a".to_string());
    m.insert("class".chars().collect(), "x".to_string());
    m.insert("href".chars().collect(), "/b".to_string());
    assert_eq!(m.len(), 2);
    assert_eq!(m.get(&"href".chars().collect()), Some("/b"));
    assert_eq!(m.get(&"class".chars().collect()), Some("x"));
    assert_eq!(m.get(&"id".chars().collect()), None);
}

#[test]
fn insert_if_absent_keeps_the_first_value() {
    let mut m = AttrMap::new();
    m.insert_if_absent("a".chars().collect(), "1".to_string());
    m.insert_if_absent("a".chars().collect(), "2".to_string());
    assert_eq!(m.get(&"a".chars().collect()), Some("1"));
}

#[test]
fn repeated_class_names_count_once() {
    let node = elem("p", attrs(&[("class", "  a b\ta a ")]), vec![]);
    let classes = node.element().unwrap().classes();
    assert_eq!(classes.len(), 2);
    assert!(classes.contains("a"));
    assert!(!classes.contains("c"));
}

#[test]
fn text_and_comment_nodes_are_not_elements() {
    let t = text("x");
    assert!(t.element().is_none());
    assert_eq!(t.tag_name(), None);
    assert_eq!(t.text_content(), Some("x"));
    let c = robin::dom::comment("note");
    assert_eq!(c.inner_text(), "");
    assert_eq!(pretty_print(&c), "<!-- note -->\n");
}

#[test]
fn pretty_print_escapes_and_nests() {
    let tree = elem("p", AttrMap::new(), vec![elem("b", AttrMap::new(), vec![text("say \"hi\"")])]);
    assert_eq!(pretty_print(&tree), "<p>\n  <b>\n    #text \"say \\\"hi\\\"\"\n");
}

#[test]
fn descendants_are_in_document_order() {
    let tree = elem(
        "div",
        AttrMap::new(),
        vec![elem("p", AttrMap::new(), vec![text("a")]), elem("span", AttrMap::new(), vec![])],
    );
    let tags: Vec<Option<&str>> = tree.descendants().iter().map(|n: &&Node| n.tag_name()).collect();
    assert_eq!(tags, vec![Some("p"), None, Some("span")]);
}

#[test]
fn class_names_are_never_empty_or_spaced() {
    let list = ClassList::from_attribute("  a \t b\u{a0}a\n  ");
    assert_eq!(list.len(), 2);
    assert!(list.contains("a"));
    assert!(list.contains("b"));
    assert!(!list.contains(""));
    assert!(!list.contains("a b"));
    assert_eq!(ClassList::from_attribute(" \t ").len(), 0);
}

#[test]
fn pretty_print_gives_one_line_per_node_in_pre_order() {
    let tree = elem(
        "div",
        attrs(&[("id", "x"), ("class", "c")]),
        vec![
            text("  hi  "),
            elem("p", AttrMap::new(), vec![text("   "), comment(" note ")]),
        ],
    );
    assert_eq!(
        pretty_print(&tree),
        "<div class=\"c\" id=\"x\">\n  #text \"hi\"\n  <p>\n    <!-- note -->\n"
    );
}

#[test]
fn clone_is_a_deep_equal_copy() {
    let tree = elem(
        "ul",
        attrs(&[("class", "menu")]),
        vec![elem("li", AttrMap::new(), vec![text("one")]), comment("c")],
    );
    let copy = tree.clone();
    assert_eq!(copy, tree);
    assert_eq!(pretty_print(&copy), pretty_print(&tree));
    assert_ne!(copy, elem("ul", AttrMap::new(), vec![]));
}
