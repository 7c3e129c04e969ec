use crit::bundled::all;

#[test]
fn all_four_variants_are_bundled() {
    let ids: Vec<&str> = all().into_iter().map(|l| l.id).collect();
    for expected in [
        "objectscript_expr",
        "objectscript_core",
        "objectscript_udl",
        "objectscript_routine",
    ] {
        assert!(ids.contains(&expected), "missing bundled variant {expected}");
    }
    assert_eq!(ids.len(), 4, "expected exactly the four ObjectScript variants");
}

#[test]
fn variants_own_their_extensions() {
    let found: Vec<Vec<&str>> = all().into_iter().map(|l| l.extensions).collect();
    assert_eq!(found, [vec![], vec![], vec!["cls"], vec!["mac", "int", "inc", "rtn"]]);
}
