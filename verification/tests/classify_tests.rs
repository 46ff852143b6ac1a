use s3b::classify::{classify, Classification, ConflictKind};
use s3b::{EntriesRow, PlanEntry};

fn candidate(key: &str, hash: &str, modified: u64) -> PlanEntry {
    PlanEntry {
        key: key.to_string(),
        path: format!("/root/{}", key),
        hash: hash.to_string(),
        modified,
    }
}

fn row(key: &str, hash: &str, modified: u64) -> EntriesRow {
    EntriesRow {
        key: key.to_string(),
        path: format!("/root/{}", key),
        hash: hash.to_string(),
        modified,
    }
}

#[test]
fn same_key_same_hash_is_identical() {
    let manifest = vec![row("k", "h", 100)];
    let v = classify(&candidate("k", "h", 999), &manifest);
    assert_eq!(v.class, Classification::Identical);
}

#[test]
fn unknown_key_is_new() {
    let manifest = vec![row("other", "h2", 100)];
    let v = classify(&candidate("k", "h", 100), &manifest);
    assert_eq!(v.class, Classification::New);
    assert!(v.duplicates.is_empty());
}

#[test]
fn empty_manifest_everything_new() {
    let manifest: Vec<EntriesRow> = Vec::new();
    let v = classify(&candidate("k", "h", 0), &manifest);
    assert_eq!(v.class, Classification::New);
}

#[test]
fn conflict_remote_older() {
    let manifest = vec![row("k", "remote-hash", 100)];
    let v = classify(&candidate("k", "local-hash", 200), &manifest);
    assert_eq!(v.class, Classification::Conflicting(ConflictKind::RemoteOlder));
}

#[test]
fn conflict_remote_newer() {
    let manifest = vec![row("k", "remote-hash", 100)];
    let v = classify(&candidate("k", "local-hash", 50), &manifest);
    assert_eq!(v.class, Classification::Conflicting(ConflictKind::RemoteNewer));
}

#[test]
fn conflict_timestamp_tie() {
    let manifest = vec![row("k", "remote-hash", 100)];
    let v = classify(&candidate("k", "local-hash", 100), &manifest);
    assert_eq!(v.class, Classification::Conflicting(ConflictKind::TimestampTie));
}

#[test]
fn classification_is_deterministic() {
    let manifest = vec![row("k1", "h", 10), row("k2", "x", 20), row("k3", "h", 30)];
    let c = candidate("k9", "h", 40);
    let first = classify(&c, &manifest);
    let second = classify(&c, &manifest);
    assert_eq!(first.class, second.class);
    assert_eq!(first.duplicates, second.duplicates);
}

#[test]
fn duplicate_content_under_other_key_stays_new() {
    let manifest = vec![row("k1", "h", 100)];
    let v = classify(&candidate("k2", "h", 100), &manifest);
    assert_eq!(v.class, Classification::New);
    assert_eq!(v.duplicates, vec!["k1".to_string()]);
}

#[test]
fn duplicates_list_all_other_keys_in_order() {
    let manifest = vec![row("k1", "h", 1), row("k2", "other", 2), row("k3", "h", 3)];
    let v = classify(&candidate("k9", "h", 4), &manifest);
    assert_eq!(v.class, Classification::New);
    assert_eq!(v.duplicates, vec!["k1".to_string(), "k3".to_string()]);
}

#[test]
fn own_key_not_listed_as_duplicate() {
    let manifest = vec![row("k", "h", 1), row("k2", "h", 2)];
    let v = classify(&candidate("k", "h", 1), &manifest);
    assert_eq!(v.class, Classification::Identical);
    assert_eq!(v.duplicates, vec!["k2".to_string()]);
}
