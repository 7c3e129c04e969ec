use crit::fingerprint::{
    checked_context_hash, compose, content_key, fits_window, identity_path, normalize_ws,
    normalized_match_text, scheme_id, sha256_hex, sha256_parts, structural_path, window_hash,
};
use crit::syntax::{Ancestor, Point, SyntaxNode};

fn node(kind: &str, range: (usize, usize), rows: (usize, usize), around: &[(&str, bool)]) -> SyntaxNode {
    SyntaxNode {
        kind: kind.to_string(),
        start_byte: range.0,
        end_byte: range.1,
        start: Point { row: rows.0, column: 0 },
        end: Point { row: rows.1, column: 0 },
        ancestors: around
            .iter()
            .map(|(kind, named)| Ancestor { kind: kind.to_string(), named: *named })
            .collect(),
    }
}

#[test]
fn hex_is_lowercase_and_64_chars() {
    let h = sha256_hex("crit".as_bytes());
    assert_eq!(h.len(), 64);
    assert!(h.chars().all(|c| c.is_ascii_hexdigit() && !c.is_ascii_uppercase()));
}

#[test]
fn keys_are_hashes_of_their_parts() {
    let hex = |h: &str| h.len() == 64 && h.chars().all(|c| matches!(c, '0'..='9' | 'a'..='f'));
    let key = content_key("r", "t", "p");
    assert!(hex(&key) && hex(&compose("f", &key)));
    assert_eq!(key, sha256_parts(&["r", "t", "p"]));
    assert_eq!(sha256_parts(&["r", "t"]), sha256_hex("r\u{1f}t".as_bytes()));
}

#[test]
fn parts_separator_prevents_collision() {
    assert_ne!(sha256_parts(&["a", "bc"]), sha256_parts(&["ab", "c"]));
}

#[test]
fn normalize_collapses_runs_and_trims() {
    assert_eq!(normalize_ws("  a \t\n  b  "), "a b");
    assert_eq!(normalize_ws("x"), "x");
    assert_eq!(normalize_ws("   "), "");
}

#[test]
fn fingerprint_ignores_position_but_not_content() {
    let k1 = content_key("r", "eval(x)", "call>args>id");
    let k2 = content_key("r", "eval(y)", "call>args>id");
    assert_eq!(compose("f.ts", &k1), compose("f.ts", &k1));
    assert_ne!(compose("f.ts", &k1), compose("f.ts", &k2));
    assert_ne!(compose("f.ts", &k1), compose("g.ts", &k1));
}

#[test]
fn rename_recomposition_matches_fresh_computation() {
    let k = content_key("r", "eval(x)", "call>args>id");
    assert_eq!(compose("new/name.ts", &k), compose("new/name.ts", &k));
}

#[test]
fn hashes_have_their_known_values() {
    assert_eq!(
        sha256_hex("abc".as_bytes()),
        "ba7816bf8f01cfea414140de5dae2223b00361a396177a9cb410ff61f20015ad"
    );
    assert_eq!(
        sha256_hex("".as_bytes()),
        "e3b0c44298fc1c149afbf4c8996fb92427ae41e4649b934ca495991b7852b855"
    );
    assert_eq!(sha256_parts(&["a", "b"]), sha256_hex("a\u{1f}b".as_bytes()));
    assert_eq!(sha256_parts(&[]), sha256_hex("".as_bytes()));
}

#[test]
fn content_key_and_fingerprint_are_hashes_of_their_parts() {
    let key = content_key("r", "eval(x)", "a>b");
    assert_eq!(key, sha256_parts(&["r", "eval(x)", "a>b"]));
    assert_eq!(compose("f", &key), sha256_parts(&["f", &key]));
}

#[test]
fn normalizing_twice_changes_nothing() {
    for s in ["", "a", " a  b\tc\n", "\u{a0}x\u{2003}y"] {
        assert_eq!(normalize_ws(&normalize_ws(s)), normalize_ws(s));
    }
    assert_eq!(normalize_ws("\u{a0}x\u{2003}y"), "x y");
}

#[test]
fn structural_path_counts_named_ancestors_only() {
    let n = node(
        "string",
        (0, 0),
        (0, 0),
        &[("arguments", true), (",", false), ("call", true), ("block", true), ("file", true)],
    );
    assert_eq!(structural_path(&n, 3), "block>call>arguments>string");
    assert_eq!(structural_path(&n, 0), "string");
    assert_eq!(structural_path(&n, 9), "file>block>call>arguments>string");
}

#[test]
fn match_text_is_normalized_and_lossy() {
    let source = [b'a', b' ', 0xff, b'\n', b'b'];
    assert_eq!(normalized_match_text(&source, &node("n", (0, 5), (0, 1), &[])), "a \u{fffd} b");
}

#[test]
fn identity_paths_are_canonical() {
    assert_eq!(identity_path("././a\\b.c"), "a/b.c");
    assert_eq!(identity_path(".\\a"), "a");
    assert_eq!(identity_path("../a"), "../a");
    assert_eq!(identity_path(&identity_path("././x")), identity_path("././x"));
}

#[test]
fn scheme_names_version_depth_and_context() {
    assert_eq!(scheme_id(3), "fp/v2:d3:c2");
    assert_eq!(scheme_id(12), "fp/v2:d12:c2");
}

#[test]
fn windows_are_clipped_to_the_file() {
    let lines: Vec<String> = ["a", "b", "c", "d", "e"].iter().map(|s| s.to_string()).collect();
    assert!(fits_window(5, 2, 2, 1));
    assert_eq!(window_hash(&lines, 2, 2, 1), sha256_parts(&["b c d"]));
    assert_eq!(window_hash(&lines, 0, 0, 1), sha256_parts(&["a b"]));
    assert_eq!(window_hash(&lines, 4, 4, 3), sha256_parts(&["b c d e"]));
    assert_eq!(window_hash(&Vec::new(), 0, 0, 2), sha256_parts(&[]));
}

#[test]
fn context_covers_the_lines_around_a_node() {
    let source = "one\n two\nthree\nfour\nfive\n".as_bytes();
    let n = node("n", (4, 8), (1, 1), &[]);
    assert_eq!(
        checked_context_hash(source, &n, 1),
        Some(sha256_parts(&["one two three"]))
    );
    assert_eq!(
        checked_context_hash(source, &n, 2),
        Some(sha256_parts(&["one two three four"]))
    );
    let beyond = node("n", (4, 8), (9, 9), &[]);
    assert_eq!(checked_context_hash(source, &beyond, 1), None);
}
