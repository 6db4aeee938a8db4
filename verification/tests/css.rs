use browser_engine::css::{
    parse, ranks_above, valid_identifier_char, Color, Declaration, Rule, Selector, SimpleSelector,
    StyleSheet, Unit, Value,
};

fn simple(tag: Option<&str>, id: Option<&str>, classes: &[&str]) -> Selector {
    Selector::Simple(SimpleSelector {
        tag_name: tag.map(|s| s.to_string()),
        id: id.map(|s| s.to_string()),
        class: classes.iter().map(|s| s.to_string()).collect(),
    })
}

fn only_rule(sheet: &StyleSheet) -> &Rule {
    assert_eq!(sheet.rules.len(), 1);
    &sheet.rules[0]
}

fn parts(selector: &Selector) -> (Option<&str>, Option<&str>, Vec<&str>) {
    let Selector::Simple(s) = selector;
    (
        s.tag_name.as_deref(),
        s.id.as_deref(),
        s.class.iter().map(|c| c.as_str()).collect(),
    )
}

fn pair(d: &Declaration) -> (&str, &Value) {
    (d.name.as_str(), &d.value)
}

#[test]
fn specificity_counts_ids_classes_and_tags() {
    assert_eq!(simple(None, None, &[]).specificity(), (0, 0, 0));
    assert_eq!(simple(Some("div"), None, &[]).specificity(), (0, 0, 1));
    assert_eq!(simple(None, Some("main"), &[]).specificity(), (1, 0, 0));
    assert_eq!(simple(None, None, &["a", "b", "c"]).specificity(), (0, 3, 0));
    assert_eq!(simple(Some("p"), Some("x"), &["a", "b"]).specificity(), (1, 2, 1));
}

#[test]
fn an_id_outranks_any_number_of_classes_and_a_tag() {
    let with_id = simple(None, Some("x"), &[]).specificity();
    let without = simple(Some("div"), None, &["a", "b", "c", "d", "e"]).specificity();
    assert!(ranks_above(with_id, without));
    assert!(!ranks_above(without, with_id));
}

#[test]
fn ties_at_the_id_go_to_classes_then_to_the_tag() {
    assert!(ranks_above((1, 2, 0), (1, 1, 1)));
    assert!(ranks_above((0, 1, 0), (0, 0, 1)));
    assert!(ranks_above((1, 1, 1), (1, 1, 0)));
    assert!(!ranks_above((1, 1, 0), (1, 1, 1)));
    assert!(!ranks_above((1, 1, 1), (1, 1, 1)));
    assert!(!ranks_above((0, 5, 1), (1, 0, 0)));
}

#[test]
fn to_px_is_the_amount_of_a_length_and_zero_otherwise() {
    assert_eq!(Value::Length(12, Unit::Px).to_px(), 12);
    assert_eq!(Value::Length(-7, Unit::Px).to_px(), -7);
    assert_eq!(Value::Keyword("auto".to_string()).to_px(), 0);
    assert_eq!(Value::ColorValue(Color { r: 1, g: 2, b: 3, a: 4 }).to_px(), 0);
}

#[test]
fn values_are_equal_by_content() {
    assert_eq!(Value::Keyword("auto".to_string()), Value::Keyword("auto".to_string()));
    assert_ne!(Value::Keyword("auto".to_string()), Value::Keyword("none".to_string()));
    assert_eq!(Value::Length(3, Unit::Px), Value::Length(3, Unit::Px));
    assert_ne!(Value::Length(3, Unit::Px), Value::Length(4, Unit::Px));
    assert_ne!(Value::Length(0, Unit::Px), Value::Keyword("0".to_string()));
    let red = Color { r: 255, g: 0, b: 0, a: 255 };
    assert_eq!(Value::ColorValue(red), Value::ColorValue(red.clone()));
    assert_eq!(Value::Length(9, Unit::Px).clone(), Value::Length(9, Unit::Px));
    assert_eq!(Value::Keyword("x".to_string()).clone(), Value::Keyword("x".to_string()));
}

#[test]
fn identifier_characters() {
    for c in ['a', 'z', 'A', 'Z', '0', '9', '-', '_'] {
        assert!(valid_identifier_char(c), "{}", c);
    }
    for c in [' ', '.', '#', '{', ':', ';', '*', 'é', '\n'] {
        assert!(!valid_identifier_char(c), "{}", c);
    }
}

#[test]
fn parse_reads_a_rule_with_each_kind_of_value() {
    let sheet = parse("div.note#top { margin: auto; width: 120px; color: #cc0a1F; }".to_string())
        .unwrap();
    let rule = only_rule(&sheet);
    assert_eq!(rule.selectors.len(), 1);
    assert_eq!(parts(&rule.selectors[0]), (Some("div"), Some("top"), vec!["note"]));
    assert_eq!(rule.declarations.len(), 3);
    assert_eq!(pair(&rule.declarations[0]), ("margin", &Value::Keyword("auto".to_string())));
    assert_eq!(pair(&rule.declarations[1]), ("width", &Value::Length(120, Unit::Px)));
    assert_eq!(
        pair(&rule.declarations[2]),
        ("color", &Value::ColorValue(Color { r: 0xcc, g: 0x0a, b: 0x1f, a: 255 }))
    );
}

#[test]
fn parse_sorts_selectors_most_specific_first_and_keeps_ties_in_order() {
    let sheet = parse("p, .a.b, #x, h1, .c , * {}".to_string()).unwrap();
    let rule = only_rule(&sheet);
    let got: Vec<_> = rule.selectors.iter().map(parts).collect();
    assert_eq!(
        got,
        vec![
            (None, Some("x"), vec![]),
            (None, None, vec!["a", "b"]),
            (None, None, vec!["c"]),
            (Some("p"), None, vec![]),
            (Some("h1"), None, vec![]),
            (None, None, vec![]),
        ]
    );
    assert!(rule.declarations.is_empty());
}

#[test]
fn parse_reads_several_rules_and_skips_whitespace() {
    let sheet = parse("\n  a{b:c;}\n\t.d  {\n e : 4PX ;\n f:#000000;}\n ".to_string()).unwrap();
    assert_eq!(sheet.rules.len(), 2);
    assert_eq!(parts(&sheet.rules[0].selectors[0]), (Some("a"), None, vec![]));
    assert_eq!(pair(&sheet.rules[0].declarations[0]), ("b", &Value::Keyword("c".to_string())));
    assert_eq!(parts(&sheet.rules[1].selectors[0]), (None, None, vec!["d"]));
    assert_eq!(pair(&sheet.rules[1].declarations[0]), ("e", &Value::Length(4, Unit::Px)));
    assert_eq!(
        pair(&sheet.rules[1].declarations[1]),
        ("f", &Value::ColorValue(Color { r: 0, g: 0, b: 0, a: 255 }))
    );
}

#[test]
fn parse_of_nothing_is_an_empty_stylesheet() {
    assert_eq!(parse(String::new()).unwrap().rules.len(), 0);
    assert_eq!(parse(" \n\t ".to_string()).unwrap().rules.len(), 0);
}

#[test]
fn a_later_id_or_tag_in_one_selector_replaces_the_earlier() {
    let sheet = parse("a#x#y.c b {}".to_string());
    // `b` after the blank is not part of the selector, and no `,` or `{` follows `a#x#y.c`.
    assert!(sheet.is_none());
    let sheet = parse("a#x#y.c.d*{}".to_string()).unwrap();
    assert_eq!(parts(&only_rule(&sheet).selectors[0]), (Some("a"), Some("y"), vec!["c", "d"]));
}

#[test]
fn parse_accepts_the_largest_length_and_refuses_the_next() {
    let sheet = parse("a{w:9223372036854775807px;}".to_string()).unwrap();
    assert_eq!(only_rule(&sheet).declarations[0].value, Value::Length(i64::MAX, Unit::Px));
    assert!(parse("a{w:9223372036854775808px;}".to_string()).is_none());
    assert!(parse("a{w:99999999999999999999999px;}".to_string()).is_none());
    let sheet = parse("a{w:007px;}".to_string()).unwrap();
    assert_eq!(only_rule(&sheet).declarations[0].value, Value::Length(7, Unit::Px));
}

#[test]
fn parse_refuses_malformed_stylesheets() {
    for source in [
        "a",
        "a {",
        "a { b }",
        "a { b: c }",
        "a { b: c; ",
        "a { b c; }",
        "a { b: 12; }",
        "a { b: 12em; }",
        "a { b: 1.2.3px; }",
        "a { b: 1..5px; }",
        "a { b: 12.5.px; }",
        "a { b: .5px; }",
        "a { b: 12.5; }",
        "a { b: 12.5 px; }",
        "a { b: 12 px; }",
        "a { b: #12345; }",
        "a { b: #12345g; }",
        "a { b: #+1+2+3; }",
        "a { b: ; } }",
        "a b { }",
        "a, { } x",
        "a ; { }",
        "{ } }",
    ] {
        assert!(parse(source.to_string()).is_none(), "{}", source);
    }
}

#[test]
fn parse_accepts_empty_names_and_keywords() {
    let sheet = parse("{:;}".to_string()).unwrap();
    let rule = only_rule(&sheet);
    assert_eq!(parts(&rule.selectors[0]), (None, None, vec![]));
    assert_eq!(pair(&rule.declarations[0]), ("", &Value::Keyword(String::new())));
    let sheet = parse(".{}".to_string()).unwrap();
    assert_eq!(parts(&only_rule(&sheet).selectors[0]), (None, None, vec![""]));
}

fn length_of(source: &str) -> Option<Value> {
    let sheet = parse(format!("a {{ w: {}; }}", source))?;
    Some(sheet.rules[0].declarations[0].value.clone())
}

#[test]
fn a_length_with_a_fraction_is_the_nearest_whole_number_of_pixels() {
    assert_eq!(length_of("12.5px"), Some(Value::Length(13, Unit::Px)));
    assert_eq!(length_of("12.4px"), Some(Value::Length(12, Unit::Px)));
    assert_eq!(length_of("12.49999px"), Some(Value::Length(12, Unit::Px)));
    assert_eq!(length_of("12.50px"), Some(Value::Length(13, Unit::Px)));
    assert_eq!(length_of("12.99px"), Some(Value::Length(13, Unit::Px)));
    assert_eq!(length_of("12.0px"), Some(Value::Length(12, Unit::Px)));
    assert_eq!(length_of("12.px"), Some(Value::Length(12, Unit::Px)));
    assert_eq!(length_of("0.5px"), Some(Value::Length(1, Unit::Px)));
    assert_eq!(length_of("0.49px"), Some(Value::Length(0, Unit::Px)));
    assert_eq!(length_of("0.05px"), Some(Value::Length(0, Unit::Px)));
    assert_eq!(length_of("350.5PX"), Some(Value::Length(351, Unit::Px)));
}

#[test]
fn a_length_that_rounds_beyond_the_largest_is_refused() {
    assert_eq!(length_of("9223372036854775807.4px"), Some(Value::Length(i64::MAX, Unit::Px)));
    assert_eq!(length_of("9223372036854775806.5px"), Some(Value::Length(i64::MAX, Unit::Px)));
    assert_eq!(length_of("9223372036854775807.5px"), None);
    assert_eq!(length_of("9223372036854775808.1px"), None);
}
