use robin::css::{
    parse, parse_declarations, specificity_less, Color, Number, Selector,
    SimpleSelector, Specificity, Unit, Value,
};

fn num(s: &str) -> Number {
    Number::parse(s).unwrap()
}

#[test]
fn parses_a_rule_with_multiple_selectors() {
    let ss = parse("a.story, h1 { color: #ff6600; font-weight: bold; }");
    assert_eq!(ss.rules.len(), 1);
    let rule = &ss.rules[0];
    assert_eq!(rule.selectors.len(), 2);
    assert_eq!(rule.declarations.len(), 2);
    assert_eq!(rule.declarations[0].name, "color");
    assert_eq!(rule.declarations[0].value, Value::ColorValue(Color::rgb(255, 102, 0)));
}

#[test]
fn specificity_ordering() {
    let id: Specificity = Selector::Simple(SimpleSelector {
        id: Some("x".into()),
        ..Default::default()
    })
    .specificity();
    let class: Specificity = Selector::Simple(SimpleSelector {
        classes: vec!["c".into()],
        ..Default::default()
    })
    .specificity();
    assert!(id > class);
    assert!(specificity_less(class, id));
    assert!(!specificity_less(id, class));
}

#[test]
fn lengths_and_units() {
    let ss = parse("p { margin: 10px; padding: 1.5em; width: 12pt; }");
    let d = &ss.rules[0].declarations;
    assert_eq!(d[0].value, Value::Length(num("10"), Unit::Px));
    assert_eq!(d[1].value, Value::Length(num("1.5"), Unit::Em));
    assert_eq!(d[2].value, Value::Length(num("12"), Unit::Pt));
    // The number texts are the decimal literals the front end turns into floats.
    let Value::Length(n, _) = &d[1].value else { panic!() };
    assert_eq!(n.as_str().parse::<f32>().unwrap(), 1.5);
}

#[test]
fn colors_in_many_forms() {
    let ss = parse("a { color: #f60; } b { color: rgb(10, 20, 30); } i { color: navy; }");
    assert_eq!(ss.rules[0].declarations[0].value, Value::ColorValue(Color::rgb(255, 102, 0)));
    // Colour functions are kept as their name and argument text.
    assert_eq!(
        ss.rules[1].declarations[0].value,
        Value::ColorFunction("rgb".to_string(), "10, 20, 30".to_string())
    );
    assert_eq!(ss.rules[2].declarations[0].value, Value::ColorValue(Color::rgb(0, 0, 128)));
}

#[test]
fn hsl_functions_keep_their_arguments() {
    let ss = parse("a { color: HSLA(120, 100%, 50%, 0.2) } b { color: rgb(255, 255, 255) }");
    assert_eq!(
        ss.rules[0].declarations[0].value,
        Value::ColorFunction("hsla".to_string(), "120, 100%, 50%, 0.2".to_string())
    );
}

#[test]
fn skips_at_rules_and_comments() {
    let ss = parse(
        "@media screen { p { color: red } } /* c */ @import url(x); h1 { color: black; }",
    );
    // Only the h1 rule survives.
    assert_eq!(ss.rules.len(), 1);
    assert_eq!(
        ss.rules[0].selectors[0],
        Selector::Simple(SimpleSelector { tag_name: Some("h1".into()), ..Default::default() })
    );
}

#[test]
fn recovers_from_a_malformed_rule() {
    let ss = parse("p { color: ; bogus } valid { color: red; }");
    // The valid rule still parses.
    assert!(ss.rules.iter().any(|r| r
        .declarations
        .iter()
        .any(|d| d.name == "color" && d.value == Value::ColorValue(Color::rgb(255, 0, 0)))));
}

#[test]
fn unsupported_selectors_are_dropped_not_misread() {
    // Descendant, child and pseudo selectors must NOT turn into a list of
    // simple selectors (which would mis-style unrelated elements).
    let ss = parse(".nav a { color: red } article > p { color: green } a:hover { color: blue }");
    for rule in &ss.rules {
        for sel in &rule.selectors {
            let Selector::Simple(s) = sel;
            // None of these should be a bare `a`, `p`, `.nav`, etc. that
            // leaked out of a complex selector.
            assert!(
                s.tag_name.is_none() || rule.selectors.len() == 1,
                "complex selector leaked into a list: {sel:?}"
            );
        }
    }
    // The bare `a` from `.nav a` must not match every <a>.
    let a_only = Selector::Simple(SimpleSelector { tag_name: Some("a".into()), ..Default::default() });
    assert!(!ss.rules.iter().any(|r| r.selectors.contains(&a_only)));
}

#[test]
fn compound_without_combinator_still_parses() {
    // `a.story` (no space) is a single simple selector and must survive.
    let ss = parse("a.story { color: red; } li, .item { color: blue; }");
    assert_eq!(ss.rules.len(), 2);
    let first = &ss.rules[0].selectors[0];
    assert_eq!(
        *first,
        Selector::Simple(SimpleSelector {
            tag_name: Some("a".into()),
            classes: vec!["story".into()],
            ..Default::default()
        })
    );
    assert_eq!(ss.rules[1].selectors.len(), 2); // li and .item
}

#[test]
fn inline_declarations() {
    let decls = parse_declarations("color: red; font-size: 14px");
    assert_eq!(decls.len(), 2);
    assert_eq!(decls[1].value, Value::Length(num("14"), Unit::Px));
}

#[test]
fn selectors_come_most_specific_first() {
    let ss = parse("p, #x, .a.b, * { color: red }");
    let specs: Vec<Specificity> = ss.rules[0].selectors.iter().map(|s| s.specificity()).collect();
    assert_eq!(specs, vec![(1, 0, 0), (0, 2, 0), (0, 0, 1), (0, 0, 0)]);
}

#[test]
fn names_and_keywords_are_lower_cased() {
    let decls = parse_declarations("COLOR: Red; Display: BLOCK; width: 5PX");
    assert_eq!(decls[0].name, "color");
    assert_eq!(decls[0].value, Value::ColorValue(Color::rgb(255, 0, 0)));
    assert_eq!(decls[1].value, Value::Keyword("block".to_string()));
    assert_eq!(decls[2].value, Value::Length(num("5"), Unit::Px));
}

#[test]
fn units_and_unknown_units() {
    let decls = parse_declarations("a: 50%; b: 2rem; c: 3vw; d: 4vh; e: 7; f: 9furlongs");
    assert_eq!(decls[0].value, Value::Length(num("50"), Unit::Percent));
    assert_eq!(decls[1].value, Value::Length(num("2"), Unit::Rem));
    assert_eq!(decls[2].value, Value::Length(num("3"), Unit::Vw));
    assert_eq!(decls[3].value, Value::Length(num("4"), Unit::Vh));
    assert_eq!(decls[4].value, Value::Length(num("7"), Unit::Px));
    assert_eq!(decls[5].value, Value::Length(num("9"), Unit::Px));
}

#[test]
fn malformed_numbers_and_hex_are_dropped() {
    let decls = parse_declarations("a: 1.2.3px; b: #12345; c: -; d: #abcdef80; e: transparent");
    assert_eq!(decls.len(), 2);
    assert_eq!(decls[0].name, "d");
    assert_eq!(decls[0].value, Value::ColorValue(Color { r: 0xab, g: 0xcd, b: 0xef, a: 0x80 }));
    assert_eq!(decls[1].value, Value::ColorValue(Color::transparent()));
}

#[test]
fn number_literals() {
    assert!(Number::parse("-1.5").is_some());
    assert!(Number::parse("+.5").is_some());
    assert!(Number::parse("3.").is_some());
    assert!(Number::parse(".").is_none());
    assert!(Number::parse("1.2.3").is_none());
    assert!(Number::parse("+-1").is_none());
    assert!(Number::parse("").is_none());
}

#[test]
fn important_and_trailing_text_are_skipped() {
    let decls = parse_declarations("color: blue !important; margin: 0 auto");
    assert_eq!(decls.len(), 2);
    assert_eq!(decls[0].value, Value::ColorValue(Color::rgb(0, 0, 255)));
    assert_eq!(decls[1].value, Value::Length(num("0"), Unit::Px));
}

#[test]
fn stray_nul_is_skipped() {
    assert!(parse("\0").rules.is_empty());
    let sheet = parse("\0 p { color: red }");
    assert_eq!(sheet.rules.len(), 1);
    assert_eq!(sheet.rules[0].selectors[0], Selector::Simple(SimpleSelector {
        tag_name: Some("p".to_string()),
        id: None,
        classes: vec![],
    }));
}

#[test]
fn non_ascii_at_rule_prelude_is_skipped() {
    let sheet = parse("@import \"·\"; h1 { color: red }");
    assert_eq!(sheet.rules.len(), 1);
    assert_eq!(sheet.rules[0].selectors[0], Selector::Simple(SimpleSelector {
        tag_name: Some("h1".to_string()),
        id: None,
        classes: vec![],
    }));
    assert_eq!(sheet.rules[0].declarations[0].value, Value::ColorValue(Color::rgb(255, 0, 0)));
    let media = parse("@media é { p { color: red } } h1 { color: red }");
    assert_eq!(media.rules.len(), 1);
}

#[test]
fn keyword_accessor() {
    assert_eq!(Value::Keyword("auto".to_string()).keyword(), Some("auto"));
    assert_eq!(Value::ColorValue(Color::rgb(0, 0, 0)).keyword(), None);
}

#[test]
fn colour_function_needs_three_numbers() {
    let decls = parse_declarations("a: rgb(1, 2); b: RGBA(1 2 3 / 50%); c: hsl(x, y, z); d: rgb(1e2, inf, -.5)");
    assert_eq!(decls[0].value, Value::Keyword("rgb".to_string()));
    assert_eq!(decls[1].value, Value::ColorFunction("rgba".to_string(), "1 2 3 / 50%".to_string()));
    assert_eq!(decls[2].value, Value::Keyword("hsl".to_string()));
    assert_eq!(decls[3].value, Value::ColorFunction("rgb".to_string(), "1e2, inf, -.5".to_string()));
}

#[test]
fn selectors_come_most_specific_first_with_lower_case_tags() {
    let sheet = parse("DIV, #Main, P.Lead { color: red }");
    let tags: Vec<Option<String>> = sheet.rules[0]
        .selectors
        .iter()
        .map(|s| match s {
            Selector::Simple(simple) => simple.tag_name.clone(),
        })
        .collect();
    assert_eq!(tags, vec![None, Some("p".to_string()), Some("div".to_string())]);
}
