use crit::diff::Counts;
use crit::finding::{Finding, FindingState, NewCause, Position, Severity};
use crit::git::DiffRelation;
use crit::report::human::{can_render_human, can_render_human_diff};
use crit::report::sarif::sarif_log;
use crit::report::style::{bold_if, caret_styled, dim_if, severity_styled};
use crit::report::{render_human, render_human_diff, render_sarif, Format};
use crit::rule::{Matcher, Rule};

fn f(rule: &str, line: usize, columns: (usize, usize)) -> Finding {
    Finding {
        rule_id: rule.into(),
        message: "bad".into(),
        severity: Severity::Error,
        language: "json".into(),
        file: "dir\\a.json".into(),
        start: Position { line, column: columns.0 },
        end: Position { line, column: columns.1 },
        snippet: "{\"k\": 1}".into(),
        fingerprint: "fp".into(),
        content_key: "ck".into(),
        context_hash: "ch".into(),
        occurrence: 2,
        state: None,
        diff_relation: None,
        new_cause: None,
    }
}

fn rule(id: &str) -> Rule {
    Rule {
        id: id.into(),
        message: "what it finds".into(),
        severity: Severity::Info,
        languages: Vec::new(),
        matcher: Matcher::Query("(x) @match".into()),
        match_capture: "match".into(),
        name: Some("Name".into()),
        description: Some("Why".into()),
        references: vec!["http://a".into()],
        cwe: Some("CWE-1".into()),
    }
}

#[test]
fn plain_report_underlines_the_match() {
    let all = [f("r", 7, (2, 5))];
    assert!(can_render_human(&all));
    assert_eq!(
        render_human(&all, 3, 1, false),
        "ERROR dir\\a.json:7:2 [r]\n  bad\n    7 | {\"k\": 1}\n         ^^^\n\n\
         1 finding(s): 1 error, 0 warning, 0 info/note  (scanned 3 file(s), skipped 1)\n"
    );
}

#[test]
fn plain_report_of_nothing() {
    assert_eq!(render_human(&[], 4, 2, true), "No findings. Scanned 4 file(s), skipped 2.\n");
}

#[test]
fn multi_line_matches_are_underlined_to_the_end_of_the_line() {
    let mut g = f("r", 123456, (3, 1));
    g.end.line = 123457;
    let text = render_human(&[g], 0, 0, false);
    assert!(text.contains("\n123456 | {\"k\": 1}\n           ^^^^^^\n"), "{text}");
}

#[test]
fn an_empty_match_gets_one_caret() {
    let text = render_human(&[f("r", 1, (4, 4))], 0, 0, false);
    assert!(text.contains("\n           ^\n"), "{text}");
}

#[test]
fn colors_wrap_texts() {
    assert_eq!(severity_styled(Severity::Error, true), "\x1b[1m\x1b[31mERROR\x1b[39m\x1b[0m");
    assert_eq!(severity_styled(Severity::Warning, true), "\x1b[1m\x1b[33mWARNING\x1b[39m\x1b[0m");
    assert_eq!(severity_styled(Severity::Info, true), "\x1b[34mINFO\x1b[39m");
    assert_eq!(severity_styled(Severity::Note, true), "\x1b[36mNOTE\x1b[39m");
    assert_eq!(severity_styled(Severity::Note, false), "NOTE");
    assert_eq!(bold_if("x", true), "\x1b[1mx\x1b[0m");
    assert_eq!(dim_if("x", true), "\x1b[2mx\x1b[0m");
    assert_eq!(dim_if("x", false), "x");
    assert_eq!(caret_styled("^", Severity::Error, true), "\x1b[31m^\x1b[39m");
    assert_eq!(caret_styled("^", Severity::Warning, true), "\x1b[33m^\x1b[39m");
    assert_eq!(caret_styled("^", Severity::Note, true), "\x1b[34m^\x1b[39m");
}

#[test]
fn tallies_count_each_severity() {
    let mut w = f("r", 1, (1, 2));
    w.severity = Severity::Warning;
    let mut i = f("r", 1, (1, 2));
    i.severity = Severity::Info;
    let mut n = f("r", 1, (1, 2));
    n.severity = Severity::Note;
    let text = render_human(&[f("r", 1, (1, 2)), w, i, n], 1, 0, false);
    assert!(text.ends_with(
        "4 finding(s): 1 error, 1 warning, 2 info/note  (scanned 1 file(s), skipped 0)\n"
    ));
}

#[test]
fn positions_without_a_column_are_found_out() {
    let mut g = f("r", 1, (0, 0));
    assert!(can_render_human(&[f("r", 1, (0, 0))]));
    g.end.line = 2;
    assert!(!can_render_human(&[g.clone()]));
    assert!(!can_render_human_diff(&[g.clone()]));
    g.state = Some(FindingState::Absent);
    assert!(can_render_human_diff(&[g]));
    assert!(!can_render_human(&[f("r", 1, (usize::MAX, 1))]));
}

#[test]
fn differential_report_is_grouped() {
    let mut new = f("new", 1, (1, 2));
    new.state = Some(FindingState::New);
    new.diff_relation = Some(DiffRelation::InUnchangedFile);
    let mut surfaced = f("surfaced", 1, (1, 2));
    surfaced.state = Some(FindingState::Unchanged);
    surfaced.new_cause = Some(NewCause::Ruleset);
    let mut old = f("old", 1, (1, 2));
    old.state = Some(FindingState::Updated);
    old.diff_relation = Some(DiffRelation::OnAddedLine);
    let mut gone = f("gone", 1, (1, 2));
    gone.state = Some(FindingState::Absent);
    let counts = Counts { new: 1, unchanged: 1, updated: 1, fixed: 1 };
    let all = [gone, old, surfaced, new];
    assert!(can_render_human_diff(&all));
    assert_eq!(
        render_human_diff(&all, counts, 5, 0, false),
        "New in this change (1)\n\n\
         ERROR dir\\a.json:1:1 [new] (in_unchanged_file)\n  bad\n    1 | {\"k\": 1}\n        ^\n\n\
         Newly flagged by a rules change (1)\n\n\
         ERROR dir\\a.json:1:1 [surfaced]\n  bad\n    1 | {\"k\": 1}\n        ^\n\n\
         Pre-existing (1)\n\n\
         ERROR dir\\a.json:1:1 [old] (on_added_line)\n  bad\n    1 | {\"k\": 1}\n        ^\n\n\
         Fixed (1)\n\n\
         ERROR dir\\a.json:1:1 [gone]\n  bad\n\n\
         1 new, 1 unchanged, 1 updated, 1 fixed  (scanned 5 file(s), skipped 0)\n"
    );
}

#[test]
fn sarif_lists_the_rules_that_fired_once() {
    let mut last = f("a", 9, (1, 2));
    last.state = Some(FindingState::New);
    last.fingerprint = String::new();
    let all = [f("a", 1, (1, 2)), f("b", 2, (3, 4)), last];
    let log = sarif_log(&all, &[rule("a"), rule("unused")]);
    let run = &log["runs"][0];
    let rules = run["tool"]["driver"]["rules"].as_array().unwrap();
    assert_eq!(rules.len(), 2);
    assert_eq!(rules[0]["id"], "a");
    assert_eq!(rules[0]["name"], "Name");
    assert_eq!(rules[0]["shortDescription"]["text"], "what it finds");
    assert_eq!(rules[0]["fullDescription"]["text"], "Why");
    assert_eq!(rules[0]["help"]["text"], "Why");
    assert_eq!(rules[0]["defaultConfiguration"]["level"], "note");
    assert_eq!(rules[0]["properties"]["cwe"], "CWE-1");
    assert_eq!(rules[0]["properties"]["references"][0], "http://a");
    assert_eq!(rules[1].as_object().unwrap().len(), 1, "nothing is known of b");
    let results = run["results"].as_array().unwrap();
    let indices: Vec<u64> = results.iter().map(|r| r["ruleIndex"].as_u64().unwrap()).collect();
    assert_eq!(indices, [0, 1, 0]);
    let r = &results[1];
    assert_eq!(r["ruleId"], "b");
    assert_eq!(r["level"], "error");
    assert_eq!(r["message"]["text"], "bad");
    assert_eq!(r["properties"]["language"], "json");
    assert_eq!(r["partialFingerprints"]["critFingerprint/v1"], "fp:2");
    assert!(r.get("baselineState").is_none());
    let place = &r["locations"][0]["physicalLocation"];
    assert_eq!(place["artifactLocation"]["uri"], "dir/a.json");
    assert_eq!(place["region"]["startLine"], 2);
    assert_eq!(place["region"]["startColumn"], 3);
    assert_eq!(place["region"]["endLine"], 2);
    assert_eq!(place["region"]["endColumn"], 4);
    assert_eq!(place["region"]["snippet"]["text"], "{\"k\": 1}");
    assert_eq!(results[2]["baselineState"], "new");
    assert!(results[2].get("partialFingerprints").is_none());
    assert_eq!(log["version"], "2.1.0");
    assert_eq!(run["tool"]["driver"]["name"], "crit");
    assert_eq!(run["tool"]["driver"]["version"], "0.1.0");
}

#[test]
fn the_last_rule_with_an_id_counts() {
    let mut second = rule("a");
    second.message = "later".into();
    second.name = None;
    let log = sarif_log(&[f("a", 1, (1, 2))], &[rule("a"), second]);
    let known = &log["runs"][0]["tool"]["driver"]["rules"][0];
    assert_eq!(known["shortDescription"]["text"], "later");
    assert!(known.get("name").is_none());
}

#[test]
fn sarif_text_is_pretty_and_sorted_by_name() {
    let text = render_sarif(&[], &[]);
    let parsed: serde_json::Value = serde_json::from_str(&text).unwrap();
    assert_eq!(parsed, sarif_log(&[], &[]));
    assert_eq!(
        text,
        "{\n  \"$schema\": \"https://raw.githubusercontent.com/oasis-tcs/sarif-spec/master/Schemata/sarif-schema-2.1.0.json\",\n  \"runs\": [\n    {\n      \"results\": [],\n      \"tool\": {\n        \"driver\": {\n          \"informationUri\": \"https://github.com/twbrowning/crit\",\n          \"name\": \"crit\",\n          \"rules\": [],\n          \"version\": \"0.1.0\"\n        }\n      }\n    }\n  ],\n  \"version\": \"2.1.0\"\n}"
    );
}

#[test]
fn formats_are_read_in_any_case() {
    assert_eq!(Format::from_str("Human"), Ok(Format::Human));
    assert_eq!(Format::from_str("text"), Ok(Format::Human));
    assert_eq!(Format::from_str("SARIF"), Ok(Format::Sarif));
    assert_eq!(Format::from_str("json"), Ok(Format::Json));
    assert_eq!(Format::from_str("snapshot"), Ok(Format::Snapshot));
    assert_eq!(
        Format::from_str("XML"),
        Err("unknown format 'xml' (expected human|sarif|json|snapshot)".to_string())
    );
}

#[test]
fn every_finding_is_in_one_group() {
    let states = [
        None,
        Some(FindingState::New),
        Some(FindingState::Unchanged),
        Some(FindingState::Updated),
        Some(FindingState::Absent),
    ];
    let mut all = Vec::new();
    for state in states {
        for cause in [None, Some(NewCause::Code), Some(NewCause::Ruleset)] {
            let mut g = f("r", 1, (1, 2));
            g.state = state;
            g.new_cause = cause;
            all.push(g);
        }
    }
    let counts = Counts { new: 0, unchanged: 0, updated: 0, fixed: 0 };
    let text = render_human_diff(&all, counts, 0, 0, false);
    assert!(text.contains("New in this change (3)\n"), "{text}");
    assert!(text.contains("Newly flagged by a rules change (3)\n"), "{text}");
    assert!(text.contains("Pre-existing (6)\n"), "{text}");
    assert!(text.contains("Fixed (3)\n"), "{text}");
}
