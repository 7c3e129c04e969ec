use std::path::Path;

use crit::path::{below, components, compare_components, extension, join, parent};
use crit::text::{
    decimal_string, is_whitespace, lines, parse_usize, split_once, split_whitespace, strip_prefix,
    to_ascii_lowercase, trim,
};

#[test]
fn whitespace_is_what_unicode_says() {
    for n in 0u32..0x11_0000 {
        if let Some(c) = char::from_u32(n) {
            assert_eq!(is_whitespace(c), c.is_whitespace(), "{n:x}");
        }
    }
}

#[test]
fn words_and_lines_split_like_strings_do() {
    for s in ["", " a b ", "x\u{a0}y\n", "a\r\nb\n\nc", "\r", "a\n"] {
        let words: Vec<&str> = s.split_whitespace().collect();
        assert_eq!(split_whitespace(s), words, "{s:?}");
        let split: Vec<&str> = s.lines().collect();
        assert_eq!(lines(s), split, "{s:?}");
        assert_eq!(trim(s), s.trim(), "{s:?}");
        assert_eq!(to_ascii_lowercase(s), s.to_ascii_lowercase());
    }
}

#[test]
fn numbers_are_read_and_written() {
    assert_eq!(decimal_string(0), "0");
    assert_eq!(decimal_string(1203), "1203");
    assert_eq!(parse_usize("+12"), Some(12));
    assert_eq!(parse_usize("18446744073709551615"), Some(usize::MAX));
    assert_eq!(parse_usize("18446744073709551616"), None);
    assert_eq!(parse_usize(""), None);
    assert_eq!(parse_usize("+"), None);
    assert_eq!(parse_usize("1a"), None);
}

#[test]
fn prefixes_and_halves() {
    assert_eq!(strip_prefix("a/b", "a/"), Some("b".to_string()));
    assert_eq!(strip_prefix("b", "a/"), None);
    assert_eq!(split_once("k:v:w", ':'), Some(("k".to_string(), "v:w".to_string())));
    assert_eq!(split_once("k", ':'), None);
}

#[test]
fn paths_behave_like_the_standard_ones() {
    for p in ["a/b.c", "/", "", ".hidden", "a/.x/y.tar.gz", "a//b/", "./a", "..", "a/..", "x."] {
        let std_parent = Path::new(p).parent().map(|q| q.to_str().unwrap().to_string());
        assert_eq!(parent(p), std_parent, "parent of {p:?}");
        let std_ext = Path::new(p).extension().map(|q| q.to_str().unwrap().to_string());
        assert_eq!(extension(p), std_ext, "extension of {p:?}");
        for q in ["x", "/abs", "", "y/z"] {
            let std_join = Path::new(p).join(q).to_str().unwrap().to_string();
            assert_eq!(join(p, q), std_join, "{p:?} joined with {q:?}");
        }
        for q in ["a", "/", "", "a/b.c", "b"] {
            let ours = below(p, q);
            assert_eq!(
                ours.as_deref().map(Path::new),
                Path::new(p).strip_prefix(q).ok(),
                "{p:?} below {q:?}"
            );
            let order = compare_components(&components(p), &components(q));
            let std_order = match Path::new(p).cmp(Path::new(q)) {
                std::cmp::Ordering::Less => -1,
                std::cmp::Ordering::Equal => 0,
                std::cmp::Ordering::Greater => 1,
            };
            assert_eq!(order, std_order, "{p:?} against {q:?}");
        }
    }
}
