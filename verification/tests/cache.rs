use crit::cache::{resolve_dir, Cache};
use crit::fingerprint::sha256_parts;

fn open(ruleset: &str, scheme: &str) -> Cache {
    Cache::open("/c".into(), ruleset.into(), scheme.into())
}

#[test]
fn key_varies_with_every_input() {
    let cache = open("sha256:rs", "fp/v2:d3:c2");
    let base = cache.key("p", "c", "l", "g");
    assert_ne!(base, cache.key("p2", "c", "l", "g"), "path");
    assert_ne!(base, cache.key("p", "c2", "l", "g"), "content");
    assert_ne!(base, cache.key("p", "c", "l2", "g"), "language");
    assert_ne!(base, cache.key("p", "c", "l", "g2"), "grammar");
    let other_rules = open("sha256:other", "fp/v2:d3:c2");
    assert_ne!(base, other_rules.key("p", "c", "l", "g"), "ruleset");
    let other_scheme = open("sha256:rs", "fp/v2:d4:c2");
    assert_ne!(base, other_scheme.key("p", "c", "l", "g"), "fingerprint scheme");
}

#[test]
fn keys_hash_everything_findings_depend_on() {
    assert_eq!(
        open("rs", "fp").key("p", "c", "l", "g"),
        sha256_parts(&["crit.cache/v1", "0.1.0", "fp", "rs", "p", "c", "l", "g"])
    );
}

#[test]
fn entries_fan_out_by_two_characters() {
    let cache = open("rs", "fp");
    let key = cache.key("p", "c", "l", "g");
    assert_eq!(cache.entry_path(&key), format!("/c/{}/{}.json", &key[..2], &key[2..]));
    assert_eq!(cache.entry_dir(&key), format!("/c/{}", &key[..2]));
    assert_eq!(cache.temp_name(&key, 7, 3), format!(".tmp-7-3-{}", &key[2..]));
    assert_eq!(cache.dir(), "/c");
}

#[test]
fn the_directory_is_explicit_or_anchored() {
    assert_eq!(resolve_dir(Some("x"), Some("/r"), Some(("s", true))), "x");
    assert_eq!(resolve_dir(None, Some("/r"), Some(("s", true))), "/r/.crit/cache");
    assert_eq!(resolve_dir(None, None, Some(("src", true))), "src/.crit/cache");
    assert_eq!(resolve_dir(None, None, Some(("src/a.c", false))), "src/.crit/cache");
    assert_eq!(resolve_dir(None, None, None), "./.crit/cache");
}

#[test]
fn no_cache_opens_nothing() {
    assert!(Cache::open_default(true, Some("x"), None, None, "r".into(), "s".into()).is_none());
    let cache = Cache::open_default(false, None, Some("/r"), None, "r".into(), "s".into()).unwrap();
    assert_eq!(cache.dir(), "/r/.crit/cache");
}
