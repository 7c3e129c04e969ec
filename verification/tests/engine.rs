use crit::ast::{dump_ast, fits, write_sexp, Ast};
use crit::cache::Cache;
use crit::diff::DiffOutcome;
use crit::engine::{ScanReport, Scanner, VisitedFile};
use crit::finding::{finalize, Finding, FindingState, Severity};
use crit::fingerprint::{compose, content_key, sha256_hex, sha256_parts};
use crit::grammars::GrammarVersions;
use crit::language::{config_base, DynamicLanguage, LanguageRegistry};
use crit::listing::{list_languages, list_rules};
use crit::rule::{parse_scm, Matcher, Rule};
use crit::snapshot::{grammar_versions, Snapshot};

fn json() -> tree_sitter::Language {
    tree_sitter_json::LANGUAGE.into()
}

fn dynamic(id: &str, extensions: &[&str]) -> DynamicLanguage {
    DynamicLanguage {
        id: id.into(),
        library: "lib.so".into(),
        symbol: None,
        extensions: extensions.iter().map(|e| e.to_string()).collect(),
        description: Some("a language".into()),
    }
}

fn registry() -> LanguageRegistry {
    let mut r = LanguageRegistry::new();
    r.add_dynamic(dynamic("json", &["json"]), json());
    r
}

fn password_rule() -> Rule {
    parse_scm(
        "; id: no-password\n; message: a password\n; severity: error\n; languages: json\n\
         ((pair key: (string (string_content) @k)) @match (#eq? @k \"password\"))\n",
    )
    .unwrap()
}

fn cross_rule() -> Rule {
    Rule {
        id: "cross".into(),
        message: "used".into(),
        severity: Severity::Error,
        languages: Vec::new(),
        matcher: Matcher::CrossFile {
            source: "((pair key: (string (string_content) @k) value: (string (string_content) @link)) (#eq? @k \"write\"))".into(),
            sink: "((pair key: (string (string_content) @k) value: (string (string_content) @link)) @match (#eq? @k \"run\"))".into(),
        },
        match_capture: "match".into(),
        name: None,
        description: None,
        references: Vec::new(),
        cwe: None,
    }
}

fn scan(rules: &[Rule], path: &str, source: &str) -> Vec<Finding> {
    let languages = registry();
    let mut scanner = Scanner::new(&languages, rules);
    let mut report = ScanReport::new();
    scanner
        .scan_file(path, None, None, source.as_bytes(), None, &mut report)
        .unwrap();
    finalize(&mut report.findings);
    report.findings
}

fn file(path: &str, source: &str) -> VisitedFile {
    VisitedFile {
        path: path.into(),
        canonical: None,
        language: "json".into(),
        source: source.as_bytes().to_vec(),
    }
}

fn cross(files: &[(&str, &str)]) -> Vec<Finding> {
    let languages = registry();
    let rules = [cross_rule()];
    let mut scanner = Scanner::new(&languages, &rules);
    let mut report = ScanReport::default();
    let visited: Vec<VisitedFile> = files.iter().map(|(p, s)| file(p, s)).collect();
    assert!(scanner.has_cross_file_rules());
    scanner.cross_file_pass(&visited, &mut report).unwrap();
    finalize(&mut report.findings);
    report.findings
}

fn snap(findings: &[Finding]) -> Snapshot {
    Snapshot::from_findings(findings, "sha256:rs".into(), GrammarVersions::new(), None)
}

#[test]
fn a_match_becomes_a_finding() {
    let found = scan(&[password_rule()], "./a.json", "{\"password\": \"x\"}");
    assert_eq!(found.len(), 1);
    let f = &found[0];
    assert_eq!(f.rule_id, "no-password");
    assert_eq!(f.message, "a password");
    assert_eq!(f.severity, Severity::Error);
    assert_eq!(f.language, "json");
    assert_eq!((f.start.line, f.start.column), (1, 2));
    assert_eq!((f.end.line, f.end.column), (1, 17));
    assert_eq!(f.snippet, "{\"password\": \"x\"}");
    let key = content_key("no-password", "\"password\": \"x\"", "document>object>pair");
    assert_eq!(f.content_key, key);
    assert_eq!(f.fingerprint, compose("a.json", &key));
    assert_eq!(f.context_hash, sha256_parts(&["{\"password\": \"x\"}"]));
    assert_eq!(f.state, None);
}

#[test]
fn text_predicates_filter() {
    assert!(scan(&[password_rule()], "a.json", "{\"user\": \"x\"}").is_empty());
}

#[test]
fn identity_survives_a_shift_and_a_reformat() {
    let base = scan(&[password_rule()], "a.json", "{\"password\": \"x\"}");
    let moved = scan(&[password_rule()], "a.json", "\n\n\n\n{\"a\": 1,\n\"password\":    \"x\"}");
    assert_ne!(base[0].start.line, moved[0].start.line);
    assert_eq!(base[0].fingerprint, moved[0].fingerprint);
    let out = DiffOutcome::diff(moved, &snap(&base));
    assert_eq!(out.counts().new, 0);
}

#[test]
fn an_edit_next_to_a_finding_reads_as_updated() {
    let base = scan(&[password_rule()], "a.json", "{\n\"password\": \"x\",\n\"b\": 1}");
    let edited = scan(&[password_rule()], "a.json", "{\n\"password\": \"x\",\n\"b\": 2}");
    let out = DiffOutcome::diff(edited, &snap(&base));
    assert_eq!(out.annotated[0].state, Some(FindingState::Updated));
}

#[test]
fn a_removed_finding_reads_as_fixed() {
    let base = scan(&[password_rule()], "a.json", "{\"password\": \"x\"}");
    let out = DiffOutcome::diff(scan(&[password_rule()], "a.json", "{}"), &snap(&base));
    assert_eq!(out.counts().fixed, 1);
}

#[test]
fn files_without_a_language_are_skipped() {
    let languages = registry();
    let rules = [password_rule()];
    let mut scanner = Scanner::new(&languages, &rules);
    let mut report = ScanReport::new();
    let r = scanner.scan_file("a.txt", None, None, b"{}", None, &mut report);
    assert!(matches!(r, Ok(None)));
    assert_eq!((report.files_scanned, report.files_skipped), (0, 1));
    let forced =
        scanner.scan_file("a.txt", None, Some("json"), b"{\"password\": 1}", None, &mut report);
    assert_eq!(forced.unwrap().unwrap().len(), 1);
    assert_eq!(report.languages_seen, ["json"]);
    let unknown = scanner.scan_file("a.txt", None, Some("xml"), b"", None, &mut report);
    assert_eq!(unknown.err().unwrap(), "unknown language id 'xml'");
    assert_eq!((report.files_scanned, report.files_skipped), (1, 1));
}

#[test]
fn a_cached_file_reads_like_a_scanned_one() {
    let languages = registry();
    let rules = [password_rule()];
    let cache = Cache::open("/c".into(), "rs".into(), "fp".into());
    let source = "{\"password\": 1}".as_bytes();
    let mut cold = ScanReport::new();
    let mut scanner = Scanner::new(&languages, &rules).with_cache(&cache);
    let found = scanner.scan_file("a.json", None, None, source, None, &mut cold).unwrap().unwrap();
    let mut warm = ScanReport::new();
    scanner.scan_file("a.json", None, None, source, Some(found), &mut warm).unwrap();
    assert_eq!(cold.findings.len(), 1);
    assert_eq!(warm.findings.len(), 1);
    assert_eq!(cold.findings[0].fingerprint, warm.findings[0].fingerprint);
    assert_eq!((cold.files_cached, warm.files_cached), (0, 1));
    assert_eq!((cold.files_scanned, warm.files_scanned), (1, 1));
    assert_eq!(warm.visited.len(), 1);
    assert_eq!(
        scanner.cache_key("a.json", None, None, source),
        Some(cache.key("a.json", &sha256_hex(source), "json", "14"))
    );
}

#[test]
fn paths_are_relative_to_the_root() {
    let languages = registry();
    let rules = [password_rule()];
    let mut scanner = Scanner::new(&languages, &rules).with_path_root("/repo".into());
    let mut report = ScanReport::new();
    let source = "{\"password\": 1}".as_bytes();
    scanner
        .scan_file("../x/a.json", Some("/repo/src/a.json"), None, source, None, &mut report)
        .unwrap();
    assert_eq!(report.findings[0].file, "src/a.json");
    assert!(scanner.take_warnings().is_empty());
    scanner.scan_file("b.json", Some("/else/b.json"), None, source, None, &mut report).unwrap();
    assert_eq!(report.findings[1].file, "b.json");
    assert_eq!(
        scanner.take_warnings(),
        ["b.json lies outside the scan root /repo; its findings keep a non-portable path and may not diff cleanly"]
    );
    assert!(scanner.take_warnings().is_empty());
}

#[test]
fn a_rule_that_does_not_compile_is_skipped_with_a_warning() {
    let languages = registry();
    let rules = [parse_scm("; id: odd\n(no_such_node) @match\n").unwrap(), password_rule()];
    let mut scanner = Scanner::new(&languages, &rules);
    let mut report = ScanReport::new();
    scanner.scan_file("a.json", None, None, b"{\"password\": 1}", None, &mut report).unwrap();
    scanner.scan_file("b.json", None, None, b"{\"password\": 1}", None, &mut report).unwrap();
    assert_eq!(report.findings.len(), 2);
    let warnings = scanner.take_warnings();
    assert_eq!(warnings.len(), 1, "{warnings:?}");
    assert!(warnings[0].contains("odd"), "{warnings:?}");
}

#[test]
fn entries_with_one_id_share_their_compiled_rules() {
    let mut languages = registry();
    languages.add_dynamic(dynamic("json", &["jsn"]), json());
    let rules = [parse_scm("; id: odd\n(no_such_node) @match\n").unwrap(), password_rule()];
    let mut scanner = Scanner::new(&languages, &rules);
    let mut report = ScanReport::new();
    scanner.scan_file("a.jsn", None, None, b"{\"password\": 1}", None, &mut report).unwrap();
    scanner.scan_file("b.json", None, None, b"{\"password\": 1}", None, &mut report).unwrap();
    assert_eq!(report.findings.len(), 2);
    assert_eq!(report.languages_seen, ["json"]);
    assert_eq!(scanner.take_warnings().len(), 1);
}

#[test]
fn files_are_joined_where_a_cross_file_rule_compiles() {
    let languages = registry();
    let rules = [cross_rule()];
    assert!(Scanner::new(&languages, &rules).joins_files_in("json"));
    let mut elsewhere = [cross_rule()];
    elsewhere[0].languages = vec!["xml".into()];
    let mut scanner = Scanner::new(&languages, &elsewhere);
    assert!(!scanner.joins_files_in("json"));
    let mut report = ScanReport::new();
    scanner.cross_file_pass(&vec![file("a.json", "")], &mut report).unwrap();
    assert!(report.findings.is_empty());
    let local = [password_rule()];
    assert!(!Scanner::new(&languages, &local).joins_files_in("json"));
}

#[test]
fn a_source_in_one_file_fires_the_sink_in_another() {
    let sink = ("b.json", "{\"run\": \"T\"}");
    assert!(cross(&[("a.json", "{\"write\": \"U\"}"), sink]).is_empty());
    let found = cross(&[("a.json", "{\n\"write\": \"T\"}"), sink]);
    assert_eq!(found.len(), 1);
    assert_eq!(found[0].file, "b.json");
    assert_eq!(found[0].rule_id, "cross");
    assert!(found[0].message.contains("source: a.json"), "{}", found[0].message);
}

#[test]
fn a_change_in_one_file_is_new_in_another() {
    let sink = ("b.json", "{\"run\": \"T\"}");
    let base = cross(&[("a.json", "{}"), sink]);
    let head = cross(&[("a.json", "{\"write\": \"T\"}"), sink]);
    let out = DiffOutcome::diff(head, &snap(&base));
    assert_eq!(out.annotated.len(), 1);
    assert_eq!(out.annotated[0].file, "b.json");
    assert_eq!(out.annotated[0].state, Some(FindingState::New));
}

#[test]
fn removing_the_source_fixes_the_sink() {
    let sink = ("b.json", "{\"run\": \"T\"}");
    let base = cross(&[("a.json", "{\"write\": \"T\"}"), sink]);
    let head = cross(&[("a.json", "{}"), sink]);
    let out = DiffOutcome::diff(head, &snap(&base));
    assert_eq!(out.counts().fixed, 1);
    assert_eq!(out.counts().new, 0);
}

#[test]
fn without_cross_file_rules_there_is_no_pass() {
    let languages = registry();
    let rules = [password_rule()];
    let mut scanner = Scanner::new(&languages, &rules);
    assert!(!scanner.has_cross_file_rules());
    let mut report = ScanReport::new();
    scanner.cross_file_pass(&vec![file("a.json", "{\"write\": \"T\"}")], &mut report).unwrap();
    assert!(report.findings.is_empty());
}

#[test]
fn visits_and_languages_stay_sorted() {
    let mut languages = registry();
    languages.add_dynamic(dynamic("alpha", &["al"]), json());
    let rules = [password_rule()];
    let mut scanner = Scanner::new(&languages, &rules);
    let mut report = ScanReport::new();
    for path in ["b.json", "a.al", "a.json", "b.json"] {
        scanner.scan_file(path, None, None, b"{}", None, &mut report).unwrap();
    }
    assert_eq!(report.languages_seen, ["alpha", "json"]);
    let visited: Vec<&str> = report.visited.iter().map(|v| v.path.as_str()).collect();
    assert_eq!(visited, ["a.al", "a.json", "b.json"]);
    let versions = grammar_versions(&languages, &report.languages_seen);
    assert_eq!(versions.get("json").map(|v| v.as_str()), Some("14"));
}

#[test]
fn languages_are_found_by_id_and_extension() {
    let mut languages = registry();
    assert_eq!(languages.by_path("x/A.JSON").unwrap().unwrap().id(), "json");
    assert!(languages.by_path("x/json").unwrap().is_none());
    assert!(languages.by_id("xml").is_none());
    languages.add_dynamic(dynamic("other", &["JSON"]), json());
    assert_eq!(
        languages.by_path("a.json").err().unwrap(),
        "extension '.json' is claimed by multiple languages ('json', 'other'); pass --language to disambiguate"
    );
    assert_eq!(languages.resolve(Some("other"), "a.json").unwrap().unwrap().id(), "other");
    assert_eq!(languages.entries().len(), 2);
    assert!(!languages.is_empty());
}

#[test]
fn dynamic_languages_name_their_library() {
    let mut lang = dynamic("json", &[]);
    assert_eq!(config_base("cfg/languages.toml"), "cfg");
    assert_eq!(lang.library_path("cfg"), "cfg/lib.so");
    assert_eq!(lang.entry_point(), "tree_sitter_json");
    lang.symbol = Some("entry".into());
    lang.library = "/abs/lib.so".into();
    assert_eq!(lang.entry_point(), "entry");
    assert_eq!(lang.library_path("cfg"), "/abs/lib.so");
}

#[test]
fn trees_are_printed_one_node_on_a_line() {
    let dump = dump_ast(&json(), b"{\"a\": 1}").unwrap();
    assert!(!dump.has_error);
    assert_eq!(
        dump.text,
        "(document)\n  (object)\n    (pair)\n      (string)\n        (string_content  \"a\")\n      (number  \"1\")\n"
    );
    assert!(dump_ast(&json(), b"{\"a\": ").unwrap().has_error);
}

#[test]
fn leaves_show_their_source_quoted() {
    let leaf = Ast { kind: "leaf".into(), start_byte: 1, end_byte: 3, children: Vec::new() };
    assert!(fits(&leaf, 3));
    assert!(!fits(&leaf, 2));
    let mut out = String::from("> ");
    write_sexp(&leaf, b"a\n\"z", "  ", &mut out);
    assert_eq!(out, ">   (leaf  \"\\n\\\"\")\n");
}

#[test]
fn tables_are_aligned() {
    let languages = registry();
    assert_eq!(
        list_languages(&languages),
        format!(
            "{:<24} {:<8} {:<22} {}\n{:<24} {:<8} {:<22} {}\n",
            "ID", "SOURCE", "EXTENSIONS", "DESCRIPTION", "json", "dynamic", ".json", "a language"
        )
    );
    assert!(list_languages(&LanguageRegistry::new()).starts_with("No languages available."));
    assert_eq!(
        list_rules(&vec![password_rule(), cross_rule()]),
        format!(
            "{:<40} {:<9} {:<28} {}\n{:<40} {:<9} {:<28} {}\n{:<40} {:<9} {:<28} {}\n\n2 rule(s).\n",
            "ID", "SEVERITY", "LANGUAGES", "FORMAT",
            "no-password", "error", "json", "query",
            "cross", "error", "*", "cross-file"
        )
    );
    assert_eq!(list_rules(&Vec::new()), "No rules loaded.\n");
}

#[test]
fn two_checkouts_agree_on_identity_and_key() {
    let languages = registry();
    let rules = [password_rule()];
    let cache = Cache::open("/c".into(), "rs".into(), "fp".into());
    let source = "{\"password\": 1}".as_bytes();
    let visit = |root: &str| {
        let path = format!("{root}/src/a.json");
        let mut scanner =
            Scanner::new(&languages, &rules).with_path_root(root.to_string()).with_cache(&cache);
        let mut report = ScanReport::new();
        scanner.scan_file(&path, Some(&path), None, source, None, &mut report).unwrap();
        (
            report.findings[0].fingerprint.clone(),
            scanner.cache_key(&path, Some(&path), None, source),
        )
    };
    assert_eq!(visit("/home/work"), visit("/tmp/crit-base-1-main"));
}

#[test]
fn a_failed_scan_reports_nothing() {
    let languages = registry();
    let rules = [password_rule()];
    let mut scanner = Scanner::new(&languages, &rules);
    let mut report = ScanReport::new();
    assert!(scanner.scan_file("a.json", None, Some("xml"), b"{}", None, &mut report).is_err());
    assert_eq!(report.files_scanned, 0);
    assert!(report.findings.is_empty() && report.visited.is_empty());
}
