use crit::finding::{finalize, Finding, FindingState, Position, Severity};

fn f(file: &str, line: usize, rule: &str, fp: &str) -> Finding {
    Finding {
        rule_id: rule.into(),
        message: "m".into(),
        severity: Severity::Note,
        language: "l".into(),
        file: file.into(),
        start: Position { line, column: 1 },
        end: Position { line, column: 2 },
        snippet: String::new(),
        fingerprint: fp.into(),
        content_key: String::new(),
        context_hash: String::new(),
        occurrence: 0,
        state: None,
        diff_relation: None,
        new_cause: None,
    }
}

#[test]
fn findings_are_sorted_numbered_and_kept_once() {
    let mut all = vec![
        f("b", 1, "r", "same"),
        f("a", 9, "r", "same"),
        f("a", 2, "s", "x"),
        f("a", 2, "r", "same"),
        f("a", 2, "r", "same"),
    ];
    finalize(&mut all);
    let seen: Vec<(&str, usize, &str, usize)> = all
        .iter()
        .map(|f| (f.file.as_str(), f.start.line, f.rule_id.as_str(), f.occurrence))
        .collect();
    assert_eq!(
        seen,
        [("a", 2, "r", 0), ("a", 2, "s", 0), ("a", 9, "r", 1), ("b", 1, "r", 2)]
    );
}

#[test]
fn finalizing_twice_changes_nothing() {
    let mut all = vec![f("b", 1, "r", "p"), f("a", 1, "r", "p"), f("a", 1, "r", "p")];
    finalize(&mut all);
    let once: Vec<(String, usize)> = all.iter().map(|f| (f.file.clone(), f.occurrence)).collect();
    finalize(&mut all);
    let twice: Vec<(String, usize)> = all.iter().map(|f| (f.file.clone(), f.occurrence)).collect();
    assert_eq!(once, twice);
    assert_eq!(once, [("a".to_string(), 0), ("b".to_string(), 1)]);
}

#[test]
fn thresholds_are_severities_or_off() {
    assert_eq!(Severity::parse_threshold("ERROR"), Some(Some(Severity::Error)));
    assert_eq!(Severity::parse_threshold("warning"), Some(Some(Severity::Warning)));
    assert_eq!(Severity::parse_threshold("info"), Some(Some(Severity::Info)));
    assert_eq!(Severity::parse_threshold("note"), Some(Some(Severity::Note)));
    assert_eq!(Severity::parse_threshold("off"), Some(None));
    assert_eq!(Severity::parse_threshold("loud"), None);
}

#[test]
fn severities_have_an_order_and_names() {
    assert!(Severity::Error.reaches(Severity::Warning));
    assert!(Severity::Warning.reaches(Severity::Warning));
    assert!(!Severity::Info.reaches(Severity::Warning));
    assert_eq!(Severity::Error.sarif_level(), "error");
    assert_eq!(Severity::Info.sarif_level(), "note");
    assert_eq!(Severity::Info.as_str(), "info");
}

#[test]
fn states_have_sarif_names() {
    assert_eq!(FindingState::New.sarif_baseline_state(), "new");
    assert_eq!(FindingState::Unchanged.sarif_baseline_state(), "unchanged");
    assert_eq!(FindingState::Updated.sarif_baseline_state(), "updated");
    assert_eq!(FindingState::Absent.sarif_baseline_state(), "absent");
    assert!(!FindingState::Absent.present_at_head());
    assert!(FindingState::Updated.present_at_head());
}
