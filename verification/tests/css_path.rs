use dom_query::css_path::{parse_selector_chain, Selector};
use dom_query::minisel::Combinator;
use dom_query::node::{Attr, Element, NodeData, NodeId, QualName, TreeNode};

type StepView = (Option<String>, Option<String>, Option<Vec<String>>, Option<(String, Option<String>)>, Option<Combinator>);

fn view(s: &Selector) -> StepView {
    (s.name.clone(), s.id.clone(), s.classes.clone(), s.attr.clone(), s.combinator)
}

fn step(
    name: Option<&str>,
    classes: Option<Vec<&str>>,
    attr: Option<(&str, Option<&str>)>,
    combinator: Combinator,
) -> StepView {
    (
        name.map(|x| x.to_string()),
        None,
        classes.map(|c| c.into_iter().map(|x| x.to_string()).collect()),
        attr.map(|(k, v)| (k.to_string(), v.map(|x| x.to_string()))),
        Some(combinator),
    )
}

#[test]
fn css_path_test_simple_path() {
    let sel = r#"div > a[href="example"] + span.class-1.class-2"#;
    let parsed = parse_selector_chain(sel);
    let got: Vec<StepView> = parsed.0.iter().map(view).collect();
    let expected = vec![
        step(Some("div"), None, None, Combinator::Descendant),
        step(Some("a"), None, Some(("href", Some("example"))), Combinator::Child),
        step(Some("span"), Some(vec!["class-1", "class-2"]), None, Combinator::Adjacent),
    ];
    assert_eq!(got, expected);
}

#[test]
fn css_path_test_names() {
    let sel = r#"body td a"#;
    let parsed = parse_selector_chain(sel);
    assert_eq!(parsed.0.len(), 3);
}

fn element(name: &str, attrs: &[(&str, &str)]) -> TreeNode {
    let attrs = attrs
        .iter()
        .map(|(k, v)| Attr { name: QualName::local_only(k), value: v.to_string() })
        .collect();
    TreeNode::new(NodeId::new(1), NodeData::Element(Element::new(QualName::local_only(name), attrs, None, false)))
}

#[test]
fn css_path_steps_match_elements() {
    let (steps, end) = parse_selector_chain(r#"a#x.big[href="u"] ~ b"#);
    assert_eq!(steps.len(), 2);
    assert_eq!(end, 21);
    let a = element("a", &[("id", "x"), ("class", "big red"), ("href", "u")]);
    assert!(steps[0].match_node(&a));
    // a missing id passes the id test
    let a2 = element("a", &[("class", "big"), ("href", "u")]);
    assert!(steps[0].match_node(&a2));
    let a3 = element("a", &[("id", "y"), ("class", "big"), ("href", "u")]);
    assert!(!steps[0].match_node(&a3));
    let a4 = element("a", &[("id", "x"), ("class", "big"), ("href", "v")]);
    assert!(!steps[0].match_node(&a4));
    assert_eq!(steps[1].combinator, Some(Combinator::Sibling));
    assert!(steps[1].match_node(&element("b", &[])));
    assert!(!steps[1].match_node(&TreeNode::new(NodeId::new(2), NodeData::Text { contents: "b".to_string() })));
    // an attribute test whose value is not quoted is no attribute test
    let (steps, end) = parse_selector_chain("a[href=u]");
    assert_eq!(steps.len(), 1);
    assert_eq!(steps[0].attr, None);
    assert_eq!(end, 1);
    assert_eq!(parse_selector_chain("").0.len(), 0);
}
