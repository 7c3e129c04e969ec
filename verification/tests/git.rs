use crit::git::{
    answer, diff_args, discover_from, failure_text, head_args, lines_countable, merge_base_args,
    parse_unified_diff, reference_args, relative_to, toplevel_args, DiffError, DiffRelation,
    GitContext, GitDiffError, GitOutput,
};

const PATCH: &str = "\
diff --git a/src/kept.mac b/src/kept.mac
index 111..222 100644
--- a/src/kept.mac
+++ b/src/kept.mac
@@ -3,0 +4,2 @@ Sample
+ set evil = \"x\"
+ xecute evil
@@ -10 +12 @@ Sample
- old line
+ new line
diff --git a/src/old-name.mac b/src/new-name.mac
similarity index 95%
rename from src/old-name.mac
rename to src/new-name.mac
--- a/src/old-name.mac
+++ b/src/new-name.mac
@@ -1 +1 @@
-Old
+New
diff --git a/src/gone.mac b/src/gone.mac
deleted file mode 100644
--- a/src/gone.mac
+++ /dev/null
@@ -1,3 +0,0 @@
-a
-b
-c
";

fn output(success: bool, stdout: &str, stderr: &str) -> GitOutput {
    GitOutput {
        success,
        stdout: stdout.as_bytes().to_vec(),
        stderr: stderr.as_bytes().to_vec(),
    }
}

#[test]
fn parses_added_ranges_and_relations() {
    assert!(lines_countable(PATCH));
    let spec = parse_unified_diff(PATCH).unwrap();
    assert_eq!(spec.relation("src/kept.mac", 4, 5), DiffRelation::OnAddedLine);
    assert_eq!(spec.relation("src/kept.mac", 12, 12), DiffRelation::OnAddedLine);
    assert_eq!(
        spec.relation("src/kept.mac", 7, 7),
        DiffRelation::InChangedFileUnchangedLine
    );
    assert_eq!(
        spec.relation("src/untouched.mac", 1, 1),
        DiffRelation::InUnchangedFile
    );
}

#[test]
fn parses_renames() {
    let spec = parse_unified_diff(PATCH).unwrap();
    assert_eq!(
        spec.renames(),
        &[("src/old-name.mac".to_string(), "src/new-name.mac".to_string())]
    );
}

#[test]
fn deleted_files_do_not_attribute() {
    let spec = parse_unified_diff(PATCH).unwrap();
    assert_eq!(spec.relation("src/gone.mac", 1, 1), DiffRelation::InUnchangedFile);
}

#[test]
fn multiline_finding_overlapping_range_is_on_added_line() {
    let spec = parse_unified_diff(PATCH).unwrap();
    assert_eq!(spec.relation("src/kept.mac", 2, 4), DiffRelation::OnAddedLine);
}

#[test]
fn ranges_end_where_their_hunks_end() {
    let spec = parse_unified_diff(PATCH).unwrap();
    assert_eq!(spec.relation("src/kept.mac", 3, 3), DiffRelation::InChangedFileUnchangedLine);
    assert_eq!(spec.relation("src/kept.mac", 5, 5), DiffRelation::OnAddedLine);
    assert_eq!(spec.relation("src/kept.mac", 6, 6), DiffRelation::InChangedFileUnchangedLine);
    assert_eq!(spec.relation("src\\kept.mac", 5, 5), DiffRelation::OnAddedLine);
    assert!(!spec.is_empty());
}

#[test]
fn a_diff_without_files_is_empty() {
    let spec = parse_unified_diff("").unwrap();
    assert!(spec.is_empty());
    assert!(spec.renames().is_empty());
    assert!(parse_unified_diff("@@ nonsense before any file\n").unwrap().is_empty());
}

#[test]
fn paths_lose_prefix_timestamp_and_backslashes() {
    let spec = parse_unified_diff("+++ b/dir\\x.c\t2020-01-01\n@@ -1 +2,3 @@\n").unwrap();
    assert_eq!(spec.relation("dir/x.c", 4, 4), DiffRelation::OnAddedLine);
    assert_eq!(spec.relation("dir/x.c", 5, 5), DiffRelation::InChangedFileUnchangedLine);
}

#[test]
fn a_file_listed_twice_keeps_both_ranges() {
    let text = "+++ b/x\n@@ -1 +1 @@\n-a\n+b\n+++ b/y\n@@ -1 +1 @@\n-a\n+b\n\
        +++ b/x\n@@ -9 +9 @@\n-a\n+b\n";
    let spec = parse_unified_diff(text).unwrap();
    assert_eq!(spec.relation("x", 1, 1), DiffRelation::OnAddedLine);
    assert_eq!(spec.relation("x", 9, 9), DiffRelation::OnAddedLine);
    assert_eq!(spec.relation("x", 5, 5), DiffRelation::InChangedFileUnchangedLine);
}

#[test]
fn a_hunk_line_is_no_file_header() {
    let spec = parse_unified_diff("--- a/f\n+++ b/f\n@@ -0,0 +1 @@\n+++ g\n").unwrap();
    assert_eq!(spec.relation("f", 1, 1), DiffRelation::OnAddedLine);
    assert_eq!(spec.relation("f", 2, 2), DiffRelation::InChangedFileUnchangedLine);
    assert_eq!(spec.relation("g", 1, 1), DiffRelation::InUnchangedFile);
    assert!(spec.renames().is_empty());
}

#[test]
fn hunks_behind_an_added_plus_plus_line_stay_with_their_file() {
    let text = "--- a/f\n+++ b/f\n@@ -2 +2,2 @@\n-++ x\n+++ g\n+y\n@@ -9 +10 @@\n-p\n+q\n\
        +++ b/h\n@@ -1 +1 @@\n-a\n+b\n";
    let spec = parse_unified_diff(text).unwrap();
    assert_eq!(spec.relation("f", 2, 3), DiffRelation::OnAddedLine);
    assert_eq!(spec.relation("f", 10, 10), DiffRelation::OnAddedLine);
    assert_eq!(spec.relation("g", 10, 10), DiffRelation::InUnchangedFile);
    assert_eq!(spec.relation("h", 1, 1), DiffRelation::OnAddedLine);
}

#[test]
fn hunks_of_deleted_files_are_passed_over_too() {
    let text = "--- a/old\n+++ /dev/null\n@@ -1,2 +0,0 @@\n-a\n-b\n+++ b/f\n@@ -0,0 +1 @@\n+x\n";
    let spec = parse_unified_diff(text).unwrap();
    assert_eq!(spec.relation("old", 1, 1), DiffRelation::InUnchangedFile);
    assert_eq!(spec.relation("f", 1, 1), DiffRelation::OnAddedLine);
}

#[test]
fn context_lines_count_on_both_sides() {
    let text = "+++ b/f\n@@ -1,3 +1,4 @@\n a\n\n+++ g\n c\n\\ No newline at end of file\n\
        +++ b/h\n@@ -1 +1 @@\n-a\n+b\n";
    let spec = parse_unified_diff(text).unwrap();
    assert_eq!(spec.relation("g", 1, 1), DiffRelation::InUnchangedFile);
    assert_eq!(spec.relation("h", 1, 1), DiffRelation::OnAddedLine);
}

#[test]
fn a_header_line_ends_a_hunk_cut_short() {
    let text = "+++ b/f\n@@ -0,0 +1,5 @@\n+a\ndiff --git a/h b/h\n+++ b/h\n@@ -0,0 +7 @@\n+b\n";
    let spec = parse_unified_diff(text).unwrap();
    assert_eq!(spec.relation("f", 5, 5), DiffRelation::OnAddedLine);
    assert_eq!(spec.relation("h", 7, 7), DiffRelation::OnAddedLine);
}

#[test]
fn one_diff_after_another_reads_as_both() {
    let p = "+++ b/x\n@@ -1 +1 @@\n-a\n+b\n+++ b/y\n";
    let q = "rename from o\nrename to n\n+++ b/x\n@@ -9 +9 @@\n-a\n+b\n+++ b/y\n@@ -2 +2 @@\n-a\n+b\n";
    let both = parse_unified_diff(&format!("{p}{q}")).unwrap();
    assert_eq!(both.renames(), &[("o".to_string(), "n".to_string())]);
    assert_eq!(both.relation("x", 1, 1), DiffRelation::OnAddedLine);
    assert_eq!(both.relation("x", 9, 9), DiffRelation::OnAddedLine);
    assert_eq!(both.relation("x", 5, 5), DiffRelation::InChangedFileUnchangedLine);
    assert_eq!(both.relation("y", 2, 2), DiffRelation::OnAddedLine);
    assert_eq!(both.relation("z", 1, 1), DiffRelation::InUnchangedFile);
}

#[test]
fn malformed_hunks_are_told_apart() {
    let no_plus = parse_unified_diff("+++ b/x\n@@ -1 @@\n");
    assert_eq!(no_plus.err(), Some(DiffError::NoPlus));
    let start = parse_unified_diff("+++ b/x\n@@ -1 +a,2 @@\n");
    assert_eq!(start.err(), Some(DiffError::Start));
    let alone = parse_unified_diff("+++ b/x\n@@ -1 +a @@\n");
    assert_eq!(alone.err(), Some(DiffError::Start));
    let count = parse_unified_diff("+++ b/x\n@@ -1 +1,b @@\n");
    assert_eq!(count.err(), Some(DiffError::Count));
    assert_eq!(DiffError::NoPlus.describe(), "malformed hunk header (no '+' segment)");
    assert_eq!(DiffError::Start.describe(), "hunk start");
    assert_eq!(DiffError::Count.describe(), "hunk count");
}

#[test]
fn hunks_behind_the_last_line_number_are_found_out() {
    assert!(!lines_countable("+++ b/x\n@@ -1 +18446744073709551615,2 @@\n"));
    assert!(lines_countable("+++ b/x\n@@ -1 +18446744073709551614,1 @@\n"));
    let out = output(true, "+++ b/x\n@@ -1 +18446744073709551615,2 @@\n", "");
    assert!(matches!(GitContext::diff_spec("abc", &out), Err(GitDiffError::TooFar)));
}

#[test]
fn git_is_asked_in_its_words() {
    assert_eq!(toplevel_args(), ["rev-parse", "--show-toplevel"]);
    assert_eq!(head_args(), ["rev-parse", "HEAD"]);
    assert_eq!(reference_args(), ["symbolic-ref", "-q", "HEAD"]);
    assert_eq!(merge_base_args("origin/main"), ["merge-base", "origin/main", "HEAD"]);
    assert_eq!(diff_args("abc"), ["diff", "-M", "--unified=0", "abc", "HEAD"]);
}

#[test]
fn answers_are_output_or_error() {
    let args = merge_base_args("x");
    assert_eq!(answer(&args, &output(true, "abc\n", "noise")), Ok("abc\n".to_string()));
    assert_eq!(
        answer(&args, &output(false, "", "fatal: no such ref\n")),
        Err("git merge-base x HEAD failed: fatal: no such ref".to_string())
    );
    assert_eq!(failure_text(&args, " bad "), "git merge-base x HEAD failed: bad");
}

#[test]
fn discovery_reads_the_work_tree() {
    assert!(GitContext::discover(None).is_none());
    assert!(GitContext::discover(Some(&output(false, "/repo\n", ""))).is_none());
    let git = GitContext::discover(Some(&output(true, "/repo\n", ""))).unwrap();
    assert_eq!(git.root(), "/repo");
    assert_eq!(discover_from("src/a.c", false), "src");
    assert_eq!(discover_from("src", true), "src");
    assert_eq!(discover_from("/", false), ".");
    assert_eq!(GitContext::at(" /r \n").root(), "/r");
}

#[test]
fn provenance_of_a_detached_head() {
    let ok = |s: &str| -> Result<String, String> { Ok(s.to_string()) };
    let vcs = GitContext::head_vcs(&ok("abc\n"), &ok("refs/heads/main\n")).unwrap();
    assert_eq!(vcs.system, "git");
    assert_eq!(vcs.commit, "abc");
    assert_eq!(vcs.reference, "refs/heads/main");
    let detached = GitContext::head_vcs(&ok("abc\n"), &Err("no".to_string())).unwrap();
    assert_eq!(detached.reference, "HEAD");
    assert!(GitContext::head_vcs(&Err("no".to_string()), &ok("x")).is_none());
}

#[test]
fn merge_base_and_diff_come_from_answers() {
    assert_eq!(GitContext::merge_base("m", &output(true, " abc \n", "")), Ok("abc".to_string()));
    assert!(GitContext::merge_base("m", &output(false, "", "x")).is_err());
    let spec = GitContext::diff_spec("abc", &output(true, PATCH, "")).unwrap();
    assert_eq!(spec.relation("src/kept.mac", 4, 4), DiffRelation::OnAddedLine);
    let failed = GitContext::diff_spec("abc", &output(false, "", "bad object"));
    match failed {
        Err(GitDiffError::Git(e)) => {
            assert_eq!(e, "git diff -M --unified=0 abc HEAD failed: bad object")
        }
        other => panic!("unexpected {other:?}"),
    }
    let malformed = GitContext::diff_spec("abc", &output(true, "+++ b/x\n@@ @@\n", ""));
    assert!(matches!(malformed, Err(GitDiffError::Malformed(DiffError::NoPlus))));
}

#[test]
fn base_trees_are_named_after_process_and_reference() {
    let tree = GitContext::at("/repo").materialize("/tmp", 42, "origin/feat:a\\b");
    assert_eq!(tree.path(), "/tmp/crit-base-42-origin_feat_a_b");
    assert_eq!(tree.repo_root(), "/repo");
    assert_eq!(
        tree.add_args("origin/feat"),
        ["worktree", "add", "--detach", "--force", "/tmp/crit-base-42-origin_feat_a_b", "origin/feat"]
    );
    assert_eq!(
        tree.remove_args(),
        ["worktree", "remove", "--force", "/tmp/crit-base-42-origin_feat_a_b"]
    );
}

#[test]
fn relative_paths_need_both_sides() {
    assert_eq!(relative_to(Some("/r/src/a.c"), Some("/r")), Some("src/a.c".to_string()));
    assert_eq!(relative_to(Some("/other/a.c"), Some("/r")), None);
    assert_eq!(relative_to(Some("/rest/a.c"), Some("/r")), None);
    assert_eq!(relative_to(None, Some("/r")), None);
    assert_eq!(relative_to(Some("/r/a"), None), None);
}
