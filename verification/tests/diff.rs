use crit::diff::{is_admitted, DiffMode, DiffOutcome};
use crit::finding::{Finding, FindingState, NewCause, Position, Severity};
use crit::git::{parse_unified_diff, DiffRelation};
use crit::grammars::GrammarVersions;
use crit::snapshot::Snapshot;

fn f(fp: &str, ctx: &str, occ: usize) -> Finding {
    Finding {
        rule_id: "r".into(),
        message: "m".into(),
        severity: Severity::Error,
        language: "objectscript".into(),
        file: "a.cls".into(),
        start: Position { line: 1, column: 1 },
        end: Position { line: 1, column: 2 },
        snippet: "x".into(),
        fingerprint: fp.into(),
        content_key: format!("ck-{fp}"),
        context_hash: ctx.into(),
        occurrence: occ,
        state: None,
        diff_relation: None,
        new_cause: None,
    }
}

fn snap(findings: &[Finding]) -> Snapshot {
    Snapshot::from_findings(findings, "sha256:rs".into(), GrammarVersions::new(), None)
}

fn state_of(out: &DiffOutcome, fp: &str) -> Option<FindingState> {
    out.annotated.iter().find(|f| f.fingerprint == fp).and_then(|f| f.state)
}

#[test]
fn classifies_new_unchanged_updated_fixed() {
    let base = snap(&[f("keep", "c0", 0), f("edit", "c0", 0), f("gone", "c0", 0)]);
    let head = vec![f("keep", "c0", 0), f("edit", "c1", 0), f("fresh", "c0", 0)];
    let out = DiffOutcome::diff(head, &base);
    let c = out.counts();
    assert_eq!(c.unchanged, 1, "keep");
    assert_eq!(c.updated, 1, "edit (context changed)");
    assert_eq!(c.new, 1, "fresh");
    assert_eq!(c.fixed, 1, "gone");
}

#[test]
fn reported_new_only_excludes_preexisting_and_fixed() {
    let base = snap(&[f("keep", "c0", 0), f("gone", "c0", 0)]);
    let head = vec![f("keep", "c0", 0), f("fresh", "c0", 0)];
    let out = DiffOutcome::diff(head, &base);
    let rep = out.reported(&[DiffMode::New]);
    assert_eq!(rep.len(), 1);
    assert_eq!(rep[0].fingerprint, "fresh");
}

#[test]
fn reported_all_includes_head_but_not_fixed() {
    let base = snap(&[f("gone", "c0", 0)]);
    let head = vec![f("keep", "c0", 0)];
    let out = DiffOutcome::diff(head, &base);
    assert_eq!(out.reported(&[DiffMode::All]).len(), 1);
    assert_eq!(out.reported(&[DiffMode::All, DiffMode::Fixed]).len(), 2);
}

#[test]
fn occurrence_disambiguates_identical_fingerprints() {
    let base = snap(&[f("dup", "c0", 0), f("dup", "c0", 1)]);
    let head = vec![f("dup", "c0", 0)];
    let out = DiffOutcome::diff(head, &base);
    let c = out.counts();
    assert_eq!(c.unchanged, 1);
    assert_eq!(c.fixed, 1);
}

#[test]
fn modes_are_read_in_any_case() {
    assert_eq!(DiffMode::from_str("ALL"), Ok(DiffMode::All));
    assert_eq!(DiffMode::from_str("new"), Ok(DiffMode::New));
    assert_eq!(DiffMode::from_str("Fixed"), Ok(DiffMode::Fixed));
    assert_eq!(DiffMode::from_str("absent"), Ok(DiffMode::Fixed));
    assert_eq!(DiffMode::from_str("updated"), Ok(DiffMode::Updated));
    assert_eq!(
        DiffMode::from_str("Old"),
        Err("unknown diff mode 'old' (expected all|new|fixed|updated)".to_string())
    );
}

#[test]
fn modes_admit_their_states() {
    for s in [FindingState::New, FindingState::Unchanged, FindingState::Updated] {
        assert!(DiffMode::All.admits(s));
    }
    assert!(!DiffMode::All.admits(FindingState::Absent));
    assert!(DiffMode::New.admits(FindingState::New));
    assert!(!DiffMode::New.admits(FindingState::Updated));
    assert!(DiffMode::Fixed.admits(FindingState::Absent));
    assert!(DiffMode::Updated.admits(FindingState::Updated));
    assert!(is_admitted(&f("x", "c", 0), &[]), "no state, no filter");
}

#[test]
fn a_scan_against_itself_is_unchanged() {
    let head = vec![f("a", "c0", 0), f("a", "c0", 1), f("b", "c0", 0)];
    let base = snap(&head);
    let out = DiffOutcome::diff(head, &base);
    let c = out.counts();
    assert_eq!((c.new, c.unchanged, c.updated, c.fixed), (0, 3, 0, 0));
}

#[test]
fn without_a_baseline_everything_is_new() {
    let out = DiffOutcome::all_new(vec![f("a", "c", 0), f("b", "c", 0)]);
    assert_eq!(out.counts().new, 2);
}

#[test]
fn partition_tells_rules_from_code() {
    let old = snap(&[f("known", "c0", 0)]);
    let now = snap(&[f("known", "c0", 0), f("surfaced", "c0", 0)]);
    let head = vec![f("known", "c0", 0), f("surfaced", "c0", 0), f("fresh", "c0", 0)];
    let out = DiffOutcome::diff_partitioned(head, &old, &now);
    let cause = |fp: &str| out.annotated.iter().find(|f| f.fingerprint == fp).unwrap().new_cause;
    assert_eq!(cause("known"), None);
    assert_eq!(cause("surfaced"), Some(NewCause::Ruleset));
    assert_eq!(cause("fresh"), Some(NewCause::Code));
    assert_eq!(state_of(&out, "surfaced"), Some(FindingState::Unchanged));
    let rep = out.reported(&[DiffMode::New]);
    assert_eq!(rep.len(), 2, "the mode for new findings shows what rules surfaced too");
}

#[test]
fn attribution_annotates_and_keeps_everything() {
    let mut moved = f("b", "c", 0);
    moved.start.line = 9;
    moved.end.line = 9;
    let mut elsewhere = f("c", "c", 0);
    elsewhere.file = "./z.cls".into();
    let mut out = DiffOutcome::all_new(vec![f("a", "c", 0), moved, elsewhere]);
    out.attribute(&parse_unified_diff("+++ b/a.cls\n@@ -1 +1 @@\n").unwrap());
    let relation = |fp: &str| {
        out.annotated.iter().find(|f| f.fingerprint == fp).unwrap().diff_relation
    };
    assert_eq!(relation("a"), Some(DiffRelation::OnAddedLine));
    assert_eq!(relation("b"), Some(DiffRelation::InChangedFileUnchangedLine));
    assert_eq!(relation("c"), Some(DiffRelation::InUnchangedFile));
    assert_eq!(out.annotated.len(), 3);
}

#[test]
fn absent_findings_are_sorted_in_with_the_rest() {
    let mut gone = f("gone", "c0", 0);
    gone.file = "0.cls".into();
    let out = DiffOutcome::diff(vec![f("keep", "c0", 0)], &snap(&[gone, f("keep", "c0", 0)]));
    let order: Vec<&str> = out.annotated.iter().map(|f| f.fingerprint.as_str()).collect();
    assert_eq!(order, ["gone", "keep"]);
    assert_eq!(out.annotated[0].message, "resolved finding for rule 'r'");
    assert_eq!(out.annotated[0].state, Some(FindingState::Absent));
}

#[test]
fn attribution_never_filters_a_report() {
    let base = snap(&[f("keep", "c0", 0), f("gone", "c0", 0)]);
    let change = parse_unified_diff("+++ b/a.cls\n@@ -1 +1 @@\n").unwrap();
    for modes in [[DiffMode::All], [DiffMode::New], [DiffMode::Fixed]] {
        let head = || vec![f("keep", "c0", 0), f("fresh", "c0", 0)];
        let plain = DiffOutcome::diff(head(), &base);
        let mut related = DiffOutcome::diff(head(), &base);
        related.attribute(&change);
        let ids = |o: &DiffOutcome| -> Vec<String> {
            o.reported(&modes).into_iter().map(|f| f.fingerprint).collect()
        };
        assert_eq!(ids(&plain), ids(&related));
    }
}
