use crit::diff::{DiffMode, DiffOutcome};
use crit::engine::ScanReport;
use crit::finding::{Finding, FindingState, NewCause, Position, Severity};
use crit::fingerprint::compose;
use crit::git::{parse_unified_diff, DiffRelation};
use crit::grammars::GrammarVersions;
use crit::pipeline::{
    all_new_warning, baseline_plan, can_render, parse_diff_modes, relate, render, resolve_mismatch,
    run_diff, tripped, BaselinePlan, BaselineSource, Baselines, Comparison, MismatchAction, MismatchPolicy,
    Rendered,
};
use crit::report::{render_human, render_sarif, Format};
use crit::snapshot::{Mismatch, Snapshot};

fn f(file: &str, key: &str, severity: Severity) -> Finding {
    Finding {
        rule_id: "r".into(),
        message: "m".into(),
        severity,
        language: "json".into(),
        file: file.into(),
        start: Position { line: 1, column: 1 },
        end: Position { line: 1, column: 2 },
        snippet: "x".into(),
        fingerprint: compose(file, key),
        content_key: key.into(),
        context_hash: "c".into(),
        occurrence: 0,
        state: None,
        diff_relation: None,
        new_cause: None,
    }
}

fn snap(findings: &[Finding]) -> Snapshot {
    Snapshot::from_findings(findings, "sha256:rs".into(), GrammarVersions::new(), None)
}

fn report(findings: Vec<Finding>) -> ScanReport {
    let mut r = ScanReport::new();
    r.findings = findings;
    r.files_scanned = 2;
    r
}

fn mismatch() -> Vec<Mismatch> {
    vec![
        Mismatch::Ruleset { base: "a".into(), current: "b".into() },
        Mismatch::Engine { base: "1".into(), current: "2".into() },
    ]
}

#[test]
fn policies_are_read_in_any_case() {
    assert_eq!(MismatchPolicy::from_str("FAIL"), Ok(MismatchPolicy::Fail));
    assert_eq!(MismatchPolicy::from_str("warn"), Ok(MismatchPolicy::Warn));
    assert_eq!(MismatchPolicy::from_str("partition"), Ok(MismatchPolicy::Partition));
    assert_eq!(MismatchPolicy::from_str("rescan-base"), Ok(MismatchPolicy::RescanBase));
    assert_eq!(MismatchPolicy::from_str("rescan_base"), Ok(MismatchPolicy::RescanBase));
    assert_eq!(
        MismatchPolicy::from_str("X"),
        Err("unknown --on-baseline-mismatch 'x' (expected fail|warn|partition|rescan-base)".into())
    );
}

#[test]
fn modes_default_to_all() {
    assert_eq!(parse_diff_modes(&vec![]).unwrap(), [DiffMode::All]);
    assert_eq!(
        parse_diff_modes(&vec!["new".into(), "FIXED".into()]).unwrap(),
        [DiffMode::New, DiffMode::Fixed]
    );
    assert_eq!(
        parse_diff_modes(&vec!["new".into(), "x".into(), "y".into()]).err().unwrap(),
        "unknown diff mode 'x' (expected all|new|fixed|updated)"
    );
}

#[test]
fn sources_are_read() {
    assert!(matches!(BaselineSource::from_str("scan"), Ok(BaselineSource::Scan)));
    assert!(matches!(BaselineSource::from_str("file:a:b"), Ok(BaselineSource::File(p)) if p == "a:b"));
    assert!(matches!(BaselineSource::from_str("cache:c"), Ok(BaselineSource::Cache(p)) if p == "c"));
    assert_eq!(
        BaselineSource::from_str("ftp:x").err().unwrap(),
        "unknown --baseline-source 'ftp:x' (expected scan|file:<path>|cache:<path>)"
    );
}

#[test]
fn sources_say_what_is_read_and_kept() {
    let files = |s: &str, present: bool| BaselineSource::from_str(s).unwrap().files(present);
    let at = |p: &str| Some(p.to_string());
    assert_eq!(files("scan", true), (None, None));
    assert_eq!(files("file:a", false), (at("a"), None));
    assert_eq!(files("file:a", true), (at("a"), None));
    assert_eq!(files("cache:c", true), (at("c"), None));
    assert_eq!(files("cache:c", false), (None, at("c")));
}

#[test]
fn findings_without_a_comparison_are_related_to_the_change() {
    let change = parse_unified_diff("+++ b/a\n@@ -0,0 +1 @@\n+x\n").unwrap();
    let all = vec![f("a", "k", Severity::Error), f("b", "k", Severity::Error)];
    let related = relate(all.clone(), Some(&change));
    assert_eq!(related[0].diff_relation, Some(DiffRelation::OnAddedLine));
    assert_eq!(related[1].diff_relation, Some(DiffRelation::InUnchangedFile));
    assert_eq!(related[0].state, None);
    assert!(relate(all, None).iter().all(|f| f.diff_relation.is_none()));
}

fn baselines(given: bool, base_named: bool, base_at_hand: bool) -> Baselines {
    Baselines { given, base_named, base_at_hand }
}

#[test]
fn plans_prefer_what_is_given() {
    let all = [DiffMode::All];
    let none = baselines(false, false, false);
    assert_eq!(baseline_plan(none, false, &all), BaselinePlan::NoDiff);
    assert_eq!(baseline_plan(baselines(true, true, true), false, &all), BaselinePlan::Given);
    assert_eq!(baseline_plan(baselines(false, true, true), false, &all), BaselinePlan::ScanBase);
    assert_eq!(baseline_plan(baselines(false, true, false), false, &all), BaselinePlan::AllNew);
    assert_eq!(baseline_plan(none, true, &all), BaselinePlan::AllNew);
    assert_eq!(
        baseline_plan(none, false, &[DiffMode::All, DiffMode::New]),
        BaselinePlan::AllNew
    );
    assert!(all_new_warning().contains("treating every finding as new"));
}

#[test]
fn mismatches_go_by_the_policy() {
    let none: Vec<Mismatch> = Vec::new();
    assert!(matches!(
        resolve_mismatch(MismatchPolicy::Fail, &none, false),
        MismatchAction::Compare
    ));
    match resolve_mismatch(MismatchPolicy::Fail, &mismatch(), true) {
        MismatchAction::Refuse(s) => assert_eq!(
            s,
            "baseline mismatch (ruleset changed (a → b); engine version changed (1 → 2)); \
             refusing to diff (--on-baseline-mismatch fail)"
        ),
        other => panic!("unexpected {other:?}"),
    }
    match resolve_mismatch(MismatchPolicy::Warn, &mismatch(), true) {
        MismatchAction::Warn(s) => assert!(s.ends_with("diffing anyway — 'new' findings may include ruleset/grammar-induced ones")),
        other => panic!("unexpected {other:?}"),
    }
    match resolve_mismatch(MismatchPolicy::Partition, &mismatch(), true) {
        MismatchAction::Partition(s) => assert!(s.contains("rescanning base")),
        other => panic!("unexpected {other:?}"),
    }
    match resolve_mismatch(MismatchPolicy::RescanBase, &mismatch(), true) {
        MismatchAction::Rescan(s) => assert!(s.contains("rescanning base")),
        other => panic!("unexpected {other:?}"),
    }
    match resolve_mismatch(MismatchPolicy::Partition, &mismatch(), false) {
        MismatchAction::Warn(s) => assert!(s.contains("'partition' needs the base source")),
        other => panic!("unexpected {other:?}"),
    }
    match resolve_mismatch(MismatchPolicy::RescanBase, &mismatch(), false) {
        MismatchAction::Warn(s) => assert!(s.contains("'rescan-base' needs the base source")),
        other => panic!("unexpected {other:?}"),
    }
}

#[test]
fn baselines_follow_renames_before_the_diff() {
    let base = snap(&[f("old.json", "k", Severity::Error)]);
    let head = vec![f("new.json", "k", Severity::Error)];
    let change = parse_unified_diff("rename from old.json\nrename to new.json\n").unwrap();
    let out = run_diff(head, Comparison::Against(base), Some(&change));
    assert_eq!(out.annotated.len(), 1);
    assert_eq!(out.annotated[0].state, Some(FindingState::Unchanged));
    assert_eq!(out.annotated[0].diff_relation, Some(DiffRelation::InUnchangedFile));
}

#[test]
fn without_a_change_there_is_no_relation() {
    let out = run_diff(vec![f("a", "k", Severity::Error)], Comparison::AllNew, None);
    assert_eq!(out.annotated[0].state, Some(FindingState::New));
    assert_eq!(out.annotated[0].diff_relation, None);
}

#[test]
fn rules_changes_do_not_gate_new_code() {
    let head = vec![f("a", "old code", Severity::Error), f("b", "new code", Severity::Warning)];
    let comparison = Comparison::Partitioned {
        before: snap(&[]),
        now: snap(&[f("a", "old code", Severity::Error)]),
    };
    let out = run_diff(head, comparison, None);
    let cause = |file: &str| out.annotated.iter().find(|f| f.file == file).unwrap().new_cause;
    assert_eq!(cause("a"), Some(NewCause::Ruleset));
    assert_eq!(cause("b"), Some(NewCause::Code));
    let none = Vec::new();
    let new = [DiffMode::New];
    assert!(!tripped(Some(Severity::Error), Some(&out), &none, &new, true));
    assert!(!tripped(Some(Severity::Error), Some(&out), &none, &new, false));
    assert!(tripped(Some(Severity::Warning), Some(&out), &none, &new, true));
    assert!(tripped(Some(Severity::Error), Some(&out), &none, &[DiffMode::All], false));
    assert!(!tripped(None, Some(&out), &none, &[DiffMode::All], false));
}

#[test]
fn fixed_findings_never_gate() {
    let out = DiffOutcome::diff(Vec::new(), &snap(&[f("a", "k", Severity::Error)]));
    assert_eq!(out.counts().fixed, 1);
    let none = Vec::new();
    assert!(!tripped(Some(Severity::Note), Some(&out), &none, &[DiffMode::Fixed], false));
}

#[test]
fn without_a_diff_every_severe_finding_gates() {
    let all = vec![f("a", "k", Severity::Warning)];
    assert!(tripped(Some(Severity::Warning), None, &all, &[DiffMode::All], false));
    assert!(!tripped(Some(Severity::Error), None, &all, &[DiffMode::All], false));
    assert!(!tripped(None, None, &all, &[DiffMode::All], false));
}

#[test]
fn a_lower_bar_fails_whatever_a_higher_one_fails() {
    let all = vec![f("a", "k", Severity::Error)];
    for t in [Severity::Error, Severity::Warning, Severity::Info, Severity::Note] {
        assert!(tripped(Some(t), None, &all, &[DiffMode::All], false));
    }
}

#[test]
fn reports_are_rendered_in_their_format() {
    let findings = vec![f("a", "k", Severity::Error)];
    let r = report(vec![f("a", "k", Severity::Error)]);
    let modes = [DiffMode::All];
    assert!(can_render(&findings, None, &modes));
    match render(Format::Human, &r, &[], None, &modes, false) {
        Rendered::Text(t) => assert_eq!(t, render_human(&findings, 2, 0, false)),
        other => panic!("unexpected {other:?}"),
    }
    match render(Format::Sarif, &r, &[], None, &modes, false) {
        Rendered::Text(t) => assert_eq!(t, render_sarif(&findings, &[])),
        other => panic!("unexpected {other:?}"),
    }
    match render(Format::Json, &r, &[], None, &modes, false) {
        Rendered::Json(v) => assert_eq!(v.len(), 1),
        other => panic!("unexpected {other:?}"),
    }
    assert!(matches!(
        render(Format::Snapshot, &r, &[], None, &modes, false),
        Rendered::Snapshot
    ));
}

#[test]
fn differential_reports_show_what_the_modes_admit() {
    let r = report(vec![f("a", "k", Severity::Error), f("b", "k", Severity::Error)]);
    let out = DiffOutcome::diff(
        vec![f("a", "k", Severity::Error), f("b", "k", Severity::Error)],
        &snap(&[f("a", "k", Severity::Error)]),
    );
    let modes = [DiffMode::New];
    assert!(can_render(&r.findings, Some(&out), &modes));
    match render(Format::Json, &r, &[], Some(&out), &modes, false) {
        Rendered::Json(v) => {
            assert_eq!(v.len(), 1);
            assert_eq!(v[0].file, "b");
        }
        other => panic!("unexpected {other:?}"),
    }
    match render(Format::Human, &r, &[], Some(&out), &modes, false) {
        Rendered::Text(t) => {
            assert!(t.starts_with("New in this change (1)\n"), "{t}");
            assert!(t.ends_with("1 new, 1 unchanged, 0 updated, 0 fixed  (scanned 2 file(s), skipped 0)\n"), "{t}");
        }
        other => panic!("unexpected {other:?}"),
    }
    assert!(matches!(
        render(Format::Snapshot, &r, &[], Some(&out), &modes, false),
        Rendered::Snapshot
    ));
}
