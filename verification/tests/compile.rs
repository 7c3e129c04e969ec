use crit::compile::{compile, Pattern, TextMatch};

fn node(name: &str) -> Pattern {
    Pattern { node: name.to_string(), field: None, text: None, capture: None, children: Vec::new() }
}

fn regex(r: &str) -> Option<TextMatch> {
    Some(TextMatch { regex: Some(r.to_string()), eq: None, not_regex: None, not_eq: None })
}

#[test]
fn compiles_simple_node() {
    let p = node("command_xecute");
    assert_eq!(compile(&p, "match").unwrap(), "(command_xecute) @match");
}

#[test]
fn compiles_text_predicate_on_root_wrapped() {
    let mut p = node("system_defined_function");
    p.text = regex("(?i)\\$zf");
    let q = compile(&p, "match").unwrap();
    assert_eq!(
        q,
        "((system_defined_function) @match\n(#match? @match \"(?i)\\\\$zf\"))"
    );
}

#[test]
fn compiles_nested_children_with_field_and_predicates() {
    let mut first = node("objectscript_identifier");
    first.field = Some("name".to_string());
    first.text = regex("(?i)pwd");
    let mut p = node("set_argument");
    p.children = vec![first, node("string_literal")];
    let q = compile(&p, "match").unwrap();
    assert_eq!(
        q,
        "((set_argument name: (objectscript_identifier) @_c1 (string_literal)) @match\n\
         (#match? @_c1 \"(?i)pwd\"))"
    );
}

#[test]
fn empty_node_is_error() {
    let p = node("");
    assert!(compile(&p, "match").is_err());
}

#[test]
fn every_text_test_becomes_its_predicate() {
    let mut p = node("n");
    p.text = Some(TextMatch {
        regex: Some("a\"b".to_string()),
        eq: Some("c".to_string()),
        not_regex: Some("d".to_string()),
        not_eq: Some("e".to_string()),
    });
    let q = compile(&p, "m").unwrap();
    assert!(q.contains("(#match? @m \"a\\\"b\")"), "{q}");
    assert!(q.contains("(#eq? @m \"c\")"), "{q}");
    assert!(q.contains("(#not-match? @m \"d\")"), "{q}");
    assert!(q.contains("(#not-eq? @m \"e\")"), "{q}");
}

#[test]
fn an_empty_child_fails_the_pattern() {
    let mut p = node("n");
    p.children = vec![node("ok"), node("")];
    assert!(compile(&p, "match").is_err());
}

#[test]
fn captures_keep_their_own_names() {
    let mut child = node("c");
    child.capture = Some("inner".to_string());
    child.text = regex("x");
    let mut p = node("n");
    p.children = vec![child];
    assert_eq!(
        compile(&p, "match").unwrap(),
        "((n (c) @inner) @match\n(#match? @inner \"x\"))"
    );
}
