use crit::diff::DiffOutcome;
use crit::finding::{finalize, Finding, FindingState, Position, Severity};
use crit::fingerprint::{compose, sha256_parts};
use crit::grammars::GrammarVersions;
use crit::rule::{Matcher, Rule};
use crit::snapshot::{
    engine_version, file_local_cache_id, ruleset_cache_id, ruleset_id, Mismatch, Snapshot,
    SnapshotFinding, Vcs, SCHEMA,
};

fn versions(pairs: &[(&str, &str)]) -> GrammarVersions {
    let mut out = GrammarVersions::new();
    for (language, version) in pairs {
        out.insert(language.to_string(), version.to_string());
    }
    out
}

fn finding(file: &str, key: &str, line: usize) -> Finding {
    Finding {
        rule_id: "r".into(),
        message: "m".into(),
        severity: Severity::Error,
        language: "objectscript".into(),
        file: file.into(),
        start: Position { line, column: 1 },
        end: Position { line, column: 2 },
        snippet: "x".into(),
        fingerprint: compose(file, key),
        content_key: key.into(),
        context_hash: "c".into(),
        occurrence: 0,
        state: None,
        diff_relation: None,
        new_cause: None,
    }
}

fn snap(findings: &[Finding]) -> Snapshot {
    Snapshot::from_findings(findings, "sha256:rs".into(), GrammarVersions::new(), None)
}

fn rule(id: &str, matcher: Matcher) -> Rule {
    Rule {
        id: id.into(),
        message: "m".into(),
        severity: Severity::Warning,
        languages: vec!["json".into()],
        matcher,
        match_capture: "match".into(),
        name: None,
        description: None,
        references: Vec::new(),
        cwe: None,
    }
}

#[test]
fn comparability_flags_ruleset_and_grammar() {
    let snap = Snapshot::from_findings(
        &[],
        "sha256:old".into(),
        versions(&[("objectscript", "14")]),
        None,
    );
    let current = versions(&[("objectscript", "15")]);
    let mm = snap.comparability("sha256:new", &current);
    assert_eq!(mm.len(), 2); // ruleset + grammar
    assert_eq!(mm[0].describe(), "ruleset changed (sha256:old → sha256:new)");
    assert_eq!(mm[1].describe(), "grammar 'objectscript' changed (14 → 15)");
}

#[test]
fn a_snapshot_is_comparable_with_itself() {
    let grammars = versions(&[("json", "14"), ("a", "1")]);
    let snap = Snapshot::from_findings(&[], "sha256:rs".into(), grammars.clone(), None);
    assert!(snap.comparability("sha256:rs", &grammars).is_empty());
    assert!(snap.comparability("sha256:rs", &GrammarVersions::new()).is_empty());
}

#[test]
fn another_engine_is_a_mismatch() {
    let mut snap = snap(&[]);
    snap.engine_version = "0.0.1".into();
    let mm = snap.comparability("sha256:rs", &GrammarVersions::new());
    assert_eq!(mm.len(), 1);
    assert!(matches!(&mm[0], Mismatch::Engine { base, current }
        if base == "0.0.1" && *current == engine_version()));
    assert_eq!(mm[0].describe(), "engine version changed (0.0.1 → 0.1.0)");
}

#[test]
fn snapshots_hold_every_finding_and_their_provenance() {
    let vcs = Vcs { system: "git".into(), commit: "abc".into(), reference: "HEAD".into() };
    let snap = Snapshot::from_findings(
        &[finding("a", "k1", 1), finding("b", "k2", 2)],
        "sha256:rs".into(),
        versions(&[("objectscript", "14")]),
        Some(vcs),
    );
    assert_eq!(snap.schema, SCHEMA);
    assert_eq!(snap.engine_version, "0.1.0");
    assert_eq!(snap.findings.len(), 2);
    assert_eq!(snap.findings[1].fingerprint, compose("b", "k2"));
    assert_eq!(snap.findings[1].content_key, "k2");
    assert_eq!(snap.grammar_versions.get("objectscript").map(|s| s.as_str()), Some("14"));
    assert_eq!(snap.vcs.as_ref().map(|v| v.commit.as_str()), Some("abc"));
    assert!(snap.suppressions.is_empty());
}

#[test]
fn stored_findings_come_back_without_their_source() {
    let f = finding("a", "k", 7);
    let back = SnapshotFinding::from_finding(&f).to_finding();
    assert_eq!(back.fingerprint, f.fingerprint);
    assert_eq!(back.content_key, f.content_key);
    assert_eq!(back.start, f.start);
    assert_eq!(back.end, f.end);
    assert_eq!(back.snippet, "");
    assert_eq!(back.message, "resolved finding for rule 'r'");
    assert_eq!(back.state, None);
}

#[test]
fn baselines_of_another_schema_are_refused() {
    let mut other = snap(&[]);
    other.schema = "crit.snapshot/v0".into();
    assert_eq!(
        Snapshot::load("b.json", other).err(),
        Some(
            "baseline snapshot b.json has schema 'crit.snapshot/v0', but this build understands \
             'crit.snapshot/v1'; re-generate the baseline or upgrade crit"
                .to_string()
        )
    );
}

#[test]
fn baselines_without_content_keys_are_refused() {
    let refused = Snapshot::load("b.json", snap(&[finding("a", "", 1)]));
    assert!(refused.err().unwrap().contains("incompatible fingerprint scheme"));
    assert!(Snapshot::load("b.json", snap(&[])).is_ok());
    assert!(Snapshot::load("b.json", snap(&[finding("a", "", 1), finding("a", "k", 2)])).is_ok());
}

#[test]
fn renamed_unchanged_findings_match() {
    let mut base = snap(&[finding("old.c", "k", 3)]);
    let renames = [("old.c".to_string(), "new.c".to_string())];
    assert_eq!(base.remap_renames(&renames), 1);
    assert_eq!(base.findings[0].file, "new.c");
    assert_eq!(base.findings[0].fingerprint, compose("new.c", "k"));
    let out = DiffOutcome::diff(vec![finding("new.c", "k", 3)], &base);
    assert_eq!(out.annotated.len(), 1);
    assert_eq!(out.annotated[0].state, Some(FindingState::Unchanged));
}

#[test]
fn renames_compose_from_the_path_identity() {
    let mut base = snap(&[finding("a.cls", "ck-x", 1)]);
    assert_eq!(base.remap_renames(&[("a.cls".to_string(), "./b.cls".to_string())]), 1);
    assert_eq!(base.findings[0].file, "./b.cls");
    assert_eq!(base.findings[0].fingerprint, compose("b.cls", "ck-x"));
}

#[test]
fn a_renamed_file_reads_all_unchanged() {
    let keys = [("k", 1), ("k", 5), ("other", 3), ("k", 9)];
    let mut before: Vec<Finding> = keys.iter().map(|(k, l)| finding("old.c", k, *l)).collect();
    let mut head: Vec<Finding> = keys.iter().map(|(k, l)| finding("new.c", k, *l)).collect();
    finalize(&mut before);
    finalize(&mut head);
    assert_eq!(head[3].occurrence, 2);
    let mut base = snap(&before);
    assert_eq!(base.remap_renames(&[("old.c".to_string(), "new.c".to_string())]), 4);
    let out = DiffOutcome::diff(head, &base);
    assert_eq!(out.annotated.len(), 4);
    assert!(out.annotated.iter().all(|f| f.state == Some(FindingState::Unchanged)));
}

#[test]
fn renames_among_other_files_read_all_unchanged() {
    let tree = |a: &str, z: &str| {
        let mut all = vec![
            finding(z, "k", 4),
            finding("m.c", "k", 2),
            finding(a, "k", 7),
            finding(a, "k", 1),
            finding("m.c", "other", 1),
        ];
        finalize(&mut all);
        all
    };
    let mut base = snap(&tree("a.c", "z.c"));
    let renames = [
        ("a.c".to_string(), "y.c".to_string()),
        ("z.c".to_string(), "./b.c".to_string()),
    ];
    assert_eq!(base.remap_renames(&renames), 3);
    let out = DiffOutcome::diff(tree("y.c", "b.c"), &base);
    assert_eq!(out.annotated.len(), 5);
    assert!(out.annotated.iter().all(|f| f.state == Some(FindingState::Unchanged)));
}

#[test]
fn renames_leave_other_files_and_old_schemes_alone() {
    let mut base = snap(&[finding("x.c", "k", 1), finding("old.c", "", 2)]);
    assert_eq!(base.remap_renames(&[("old.c".to_string(), "new.c".to_string())]), 0);
    assert_eq!(base.findings[0].file, "x.c");
    assert_eq!(base.findings[1].file, "old.c");
}

#[test]
fn merged_files_are_numbered_anew() {
    let mut base = snap(&[finding("a.c", "k", 9), finding("b.c", "k", 4)]);
    assert_eq!(base.remap_renames(&[("a.c".to_string(), "b.c".to_string())]), 1);
    assert_eq!(base.findings[0].fingerprint, base.findings[1].fingerprint);
    assert_eq!(base.findings[0].occurrence, 1, "line 9 comes second");
    assert_eq!(base.findings[1].occurrence, 0, "line 4 comes first");
}

#[test]
fn ruleset_id_changes_with_rules() {
    let rules = vec![
        rule("a", Matcher::Query("(x) @match".into())),
        rule("b", Matcher::Query("(y) @match".into())),
    ];
    let full = ruleset_id(&rules);
    let subset = ruleset_id(&rules[..rules.len() - 1]);
    assert_ne!(full, subset, "dropping a rule must change the ruleset id");
    assert!(full.starts_with("sha256:"));
}

#[test]
fn wording_changes_the_cache_id_only() {
    let rules = vec![rule("a", Matcher::Query("(x) @match".into()))];
    let mut reworded = vec![rule("a", Matcher::Query("(x) @match".into()))];
    reworded[0].message = "other words".into();
    assert_eq!(ruleset_id(&rules), ruleset_id(&reworded));
    assert_ne!(ruleset_cache_id(&rules), ruleset_cache_id(&reworded));
}

#[test]
fn rule_set_ids_are_tagged_hashes() {
    let rules = [rule("a", Matcher::Query("(x) @match".into()))];
    for id in [ruleset_id(&rules), ruleset_cache_id(&rules), file_local_cache_id(&rules), ruleset_id(&[])] {
        assert_eq!(id.len(), 71);
        let digits = id.strip_prefix("sha256:").unwrap();
        assert!(digits.chars().all(|c| matches!(c, '0'..='9' | 'a'..='f')), "{id}");
    }
}

#[test]
fn describing_a_rule_otherwise_changes_neither_id() {
    let rules = vec![rule("a", Matcher::Query("(x) @match".into()))];
    let mut described = vec![rule("a", Matcher::Query("(x) @match".into()))];
    described[0].name = Some("A".into());
    described[0].description = Some("what it is for".into());
    described[0].references = vec!["https://example.org".into()];
    described[0].cwe = Some("CWE-79".into());
    assert_eq!(ruleset_id(&rules), ruleset_id(&described));
    assert_eq!(ruleset_cache_id(&rules), ruleset_cache_id(&described));
}

#[test]
fn what_decides_the_findings_changes_the_ruleset_id() {
    let plain = || rule("a", Matcher::Query("(x) @match".into()));
    let id = ruleset_id(&[plain()]);
    let mut other = plain();
    other.id = "b".into();
    assert_ne!(ruleset_id(&[other]), id);
    let mut other = plain();
    other.severity = Severity::Error;
    assert_ne!(ruleset_id(&[other]), id);
    let mut other = plain();
    other.languages.push("xml".into());
    assert_ne!(ruleset_id(&[other]), id);
    let mut other = plain();
    other.match_capture = "y".into();
    assert_ne!(ruleset_id(&[other]), id);
}

#[test]
fn matching_changes_both_ids() {
    let rules = vec![rule("a", Matcher::Query("(x) @match".into()))];
    let mut edited = vec![rule("a", Matcher::Query("(z) @match".into()))];
    assert_ne!(ruleset_id(&rules), ruleset_id(&edited));
    assert_ne!(ruleset_cache_id(&rules), ruleset_cache_id(&edited));
    edited[0].matcher = Matcher::Query("(x) @match".into());
    edited[0].languages = vec!["json".into(), "yaml".into()];
    assert_ne!(ruleset_cache_id(&rules), ruleset_cache_id(&edited));
}

#[test]
fn cross_file_edits_leave_the_per_file_cache_warm() {
    let cross = |sink: &str| Matcher::CrossFile { source: "(s) @link".into(), sink: sink.into() };
    let before = vec![rule("a", Matcher::Query("(x) @match".into())), rule("b", cross("(t) @link"))];
    let after = vec![rule("a", Matcher::Query("(x) @match".into())), rule("b", cross("(u) @link"))];
    assert_eq!(file_local_cache_id(&before), file_local_cache_id(&after));
    assert_ne!(ruleset_cache_id(&before), ruleset_cache_id(&after));
}

#[test]
fn grammar_versions_are_sorted_and_kept_once() {
    let mut v = versions(&[("b", "1"), ("a", "2")]);
    v.insert("b".into(), "3".into());
    let listed: Vec<(&str, &str)> =
        v.entries().iter().map(|e| (e.language.as_str(), e.version.as_str())).collect();
    assert_eq!(listed, [("a", "2"), ("b", "3")]);
    assert!(v.get("c").is_none());
}

#[test]
fn ids_hash_what_rules_match_with_and_say() {
    let rules = [rule("a", Matcher::Query("(x) @match".into()))];
    assert_eq!(
        ruleset_id(&rules),
        format!(
            "sha256:{}",
            sha256_parts(&["crit.ruleset/v2", "a", "warning", "json", "match", "(x) @match"])
        )
    );
    assert_eq!(
        ruleset_cache_id(&rules),
        format!(
            "sha256:{}",
            sha256_parts(&[
                "crit.ruleset-cache/v1", "a", "warning", "json", "match", "(x) @match", "m"
            ])
        )
    );
}
