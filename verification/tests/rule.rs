use crit::compile::Pattern;
use crit::finding::Severity;
use crit::rule::{
    load_paths, parse_scm, parse_severity, parse_yaml, rule_format, severity_from_parts, Matcher,
    Rule, RuleFile, RuleFormat, RuleSpec,
};

fn spec(id: &str) -> RuleSpec {
    RuleSpec {
        id: id.into(),
        message: "m".into(),
        severity: None,
        languages: Vec::new(),
        language: None,
        query: None,
        pattern: None,
        scope: None,
        source: None,
        sink: None,
        capture: None,
        name: None,
        description: None,
        references: Vec::new(),
        cwe: None,
    }
}

fn query(id: &str) -> RuleSpec {
    let mut s = spec(id);
    s.query = Some("(x) @match".into());
    s
}

fn loaded(id: &str) -> Rule {
    query(id).into_rule().unwrap()
}

#[test]
fn defaults_are_filled_in() {
    let mut s = query("a");
    s.languages = vec!["one".into()];
    s.language = Some("two".into());
    let r = s.into_rule().unwrap();
    assert_eq!(r.severity, Severity::Warning);
    assert_eq!(r.match_capture, "match");
    assert_eq!(r.languages, ["one", "two"]);
    assert_eq!(r.query_source().unwrap(), "(x) @match");
    assert!(!r.is_cross_file());
}

#[test]
fn match_logic_is_stated_exactly_once() {
    assert_eq!(
        spec("a").into_rule().err().unwrap(),
        "rule 'a' must set either `query` or `pattern`"
    );
    let mut both = query("b");
    both.pattern = Some(Pattern {
        node: "n".into(),
        field: None,
        text: None,
        capture: None,
        children: Vec::new(),
    });
    assert_eq!(
        both.into_rule().err().unwrap(),
        "rule 'b' sets both `query` and `pattern`; use exactly one"
    );
}

#[test]
fn cross_file_rules_state_source_and_sink() {
    let mut s = spec("x");
    s.scope = Some("cross-file".into());
    s.source = Some("(a) @link".into());
    s.sink = Some("(b) @link".into());
    let r = s.into_rule().unwrap();
    assert!(r.is_cross_file());
    assert_eq!(r.query_source().unwrap(), "(a) @link\n; sink\n(b) @link");
    let mut half = spec("x");
    half.scope = Some("cross-file".into());
    half.source = Some("(a) @link".into());
    assert!(half.into_rule().is_err());
    let mut odd = query("x");
    odd.scope = Some("whole-world".into());
    assert!(odd.into_rule().is_err());
    let mut stray = query("x");
    stray.sink = Some("(b)".into());
    assert!(stray.into_rule().is_err());
    let mut mixed = query("x");
    mixed.scope = Some("cross-file".into());
    assert!(mixed.into_rule().is_err());
}

#[test]
fn pattern_rules_compile_their_pattern() {
    let mut s = spec("p");
    s.pattern = Some(Pattern {
        node: "n".into(),
        field: None,
        text: None,
        capture: None,
        children: Vec::new(),
    });
    s.capture = Some("here".into());
    assert_eq!(s.into_rule().unwrap().query_source().unwrap(), "(n) @here");
}

#[test]
fn documents_hold_one_rule_or_many() {
    assert_eq!(parse_yaml(RuleFile::One(query("a"))).unwrap().len(), 1);
    let list = parse_yaml(RuleFile::List(vec![query("a"), query("b")])).unwrap();
    assert_eq!(list[1].id, "b");
    let many = parse_yaml(RuleFile::Many { rules: vec![query("a"), spec("bad")] });
    assert_eq!(many.err().unwrap(), "rule 'bad' must set either `query` or `pattern`");
}

#[test]
fn groups_cover_their_variants() {
    let mut r = loaded("a");
    assert!(r.applies_to("anything"));
    r.languages = vec!["objectscript".into()];
    assert!(r.applies_to("objectscript"));
    assert!(r.applies_to("objectscript_udl"));
    assert!(!r.applies_to("objectscripts"));
    r.languages = vec!["objectscript_udl".into()];
    assert!(!r.applies_to("objectscript_routine"));
}

#[test]
fn scm_files_carry_their_metadata() {
    let text = "\
; id: os-dynamic-exec-xecute
; message: XECUTE runs its argument as ObjectScript code.
; severity: error
; languages: objectscript, json
; reference: http://a , http://b
; cwe: CWE-95

(command_xecute) @match
";
    let r = parse_scm(text).unwrap();
    assert_eq!(r.id, "os-dynamic-exec-xecute");
    assert_eq!(r.message, "XECUTE runs its argument as ObjectScript code.");
    assert_eq!(r.severity, Severity::Error);
    assert_eq!(r.languages, ["objectscript", "json"]);
    assert_eq!(r.references, ["http://a", "http://b"]);
    assert_eq!(r.cwe.as_deref(), Some("CWE-95"));
    assert!(matches!(&r.matcher, Matcher::Query(q) if q == "(command_xecute) @match"));
}

#[test]
fn scm_files_need_an_id_and_a_query() {
    assert_eq!(
        parse_scm("(x) @match\n").err().unwrap(),
        "`.scm` rule is missing an `; id:` header"
    );
    assert_eq!(parse_scm("; id: a\n").err().unwrap(), "`.scm` rule has no query body");
    assert_eq!(
        parse_scm("; id: a\n; severity: loud\n(x) @match\n").err().unwrap(),
        "invalid severity 'loud'"
    );
    let r = parse_scm("; id: a\n(x) @match\n").unwrap();
    assert_eq!(r.message, "a");
    assert_eq!(r.severity, Severity::Warning);
}

#[test]
fn severities_are_read_as_yaml() {
    assert_eq!(parse_severity("error"), Some(Severity::Error));
    assert_eq!(parse_severity("\"note\""), Some(Severity::Note));
    assert_eq!(parse_severity("!info"), Some(Severity::Info));
    assert_eq!(parse_severity("!info x"), None);
    assert_eq!(parse_severity("[error]"), None);
    assert_eq!(parse_severity("Error"), None);
    assert_eq!(parse_severity("null"), None);
}

#[test]
fn tags_name_severities_alone() {
    assert_eq!(
        severity_from_parts(Some(("!warning".into(), true)), None),
        Some(Severity::Warning)
    );
    assert_eq!(severity_from_parts(Some(("!warning".into(), false)), None), None);
    assert_eq!(severity_from_parts(Some(("warning".into(), true)), None), None);
    assert_eq!(severity_from_parts(None, Some("note".into())), Some(Severity::Note));
    assert_eq!(severity_from_parts(None, None), None);
}

#[test]
fn rule_files_are_told_by_extension() {
    assert!(matches!(rule_format("rules/a.yml"), Some(RuleFormat::Yaml)));
    assert!(matches!(rule_format("rules/a.yaml"), Some(RuleFormat::Yaml)));
    assert!(matches!(rule_format("rules/a.scm"), Some(RuleFormat::Scm)));
    assert!(rule_format("rules/a.txt").is_none());
    assert!(rule_format("rules/README").is_none());
}

#[test]
fn rule_sets_are_sorted_and_free_of_duplicates() {
    let set = load_paths(vec![loaded("b"), loaded("a"), loaded("c")]).unwrap();
    let ids: Vec<&str> = set.iter().map(|r| r.id.as_str()).collect();
    assert_eq!(ids, ["a", "b", "c"]);
    let twice = load_paths(vec![loaded("b"), loaded("a"), loaded("b")]);
    assert_eq!(twice.err().unwrap(), "duplicate rule id 'b'");
}
