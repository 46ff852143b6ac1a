use s3b::scan::{derive_key, is_reserved_path, keep_path, make_candidate, matches_any};

fn strings(xs: &[&str]) -> Vec<String> {
    xs.iter().map(|s| s.to_string()).collect()
}

#[test]
fn matches_any_finds_substrings() {
    let p = "/home/op/data/docs/a.txt".to_string();
    assert!(matches_any(&p, &strings(&["docs"])));
    assert!(matches_any(&p, &strings(&["nope", ".txt"])));
    assert!(!matches_any(&p, &strings(&["nope", "missing"])));
    assert!(!matches_any(&p, &Vec::new()));
}

#[test]
fn keep_path_applies_both_filters() {
    let p = "/home/op/data/docs/a.txt".to_string();
    // No filters: kept.
    assert!(keep_path(&p, &Vec::new(), &Vec::new()));
    // Exclusion wins over everything.
    assert!(!keep_path(&p, &Vec::new(), &strings(&["docs"])));
    assert!(!keep_path(&p, &strings(&["docs"]), &strings(&["docs"])));
    // With inclusions, at least one must occur.
    assert!(keep_path(&p, &strings(&["docs"]), &Vec::new()));
    assert!(!keep_path(&p, &strings(&["img"]), &Vec::new()));
}

#[test]
fn reserved_paths_are_flagged() {
    assert!(is_reserved_path(&"/home/op/_s3b_db/entries.json".to_string()));
    assert!(is_reserved_path(&"_s3b_db/entries.json".to_string()));
    assert!(is_reserved_path(&"/home/op/s3b_plan.bin".to_string()));
    assert!(is_reserved_path(&"s3b_plan.bin".to_string()));
    assert!(!is_reserved_path(&"/home/op/data/a.txt".to_string()));
    assert!(!is_reserved_path(&"/home/op/my_s3b_db_notes/a.txt".to_string()));
    assert!(!is_reserved_path(&"/home/op/s3b_plan.bin.bak".to_string()));
}

#[test]
fn key_is_path_without_base_prefix() {
    let base = "/home/op/data".to_string();
    let key = derive_key(&base, &"/home/op/data/docs/a.txt".to_string());
    assert_eq!(key, Some("docs/a.txt".to_string()));
}

#[test]
fn key_requires_the_base_prefix() {
    let base = "/home/op/data".to_string();
    assert!(derive_key(&base, &"/home/other/docs/a.txt".to_string()).is_none());
    assert!(derive_key(&base, &"/home/op/data".to_string()).is_none());
    assert!(derive_key(&base, &"/home/op/database/a.txt".to_string()).is_none());
}

#[test]
fn candidate_carries_fingerprint_and_key() {
    let base = "/home/op/data".to_string();
    let path = "/home/op/data/docs/a.txt".to_string();
    let contents = vec![1u8, 2, 3, 4];
    let c = make_candidate(&base, &path, &contents, 777).expect("path sits under the base");
    assert_eq!(c.key, "docs/a.txt");
    assert_eq!(c.path, path);
    assert_eq!(c.modified, 777);
    assert_eq!(c.hash.len(), 64);
    assert!(c.hash.chars().all(|ch| ch.is_ascii_hexdigit()));
}

#[test]
fn fingerprint_depends_on_content_alone() {
    let base = "/b".to_string();
    let c1 = make_candidate(&base, &"/b/x".to_string(), &vec![1u8, 2, 3], 1).unwrap();
    let c2 = make_candidate(&base, &"/b/y".to_string(), &vec![1u8, 2, 3], 2).unwrap();
    let c3 = make_candidate(&base, &"/b/z".to_string(), &vec![1u8, 2, 4], 3).unwrap();
    assert_eq!(c1.hash, c2.hash);
    assert_ne!(c1.hash, c3.hash);
}

#[test]
fn candidate_outside_base_is_rejected() {
    let base = "/home/op/data".to_string();
    assert!(make_candidate(&base, &"/etc/passwd".to_string(), &vec![0u8], 1).is_none());
}
