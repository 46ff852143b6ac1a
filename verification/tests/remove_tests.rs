use s3b::manifest::ManifestStore;
use s3b::remove::keys_to_drop;
use s3b::EntriesRow;

fn strings(xs: &[&str]) -> Vec<String> {
    xs.iter().map(|s| s.to_string()).collect()
}

fn row(key: &str) -> EntriesRow {
    EntriesRow {
        key: key.to_string(),
        path: format!("/root/{}", key),
        hash: "h".to_string(),
        modified: 0,
    }
}

#[test]
fn trailing_separator_selects_whole_prefix() {
    let listed = strings(&["a/b/one.txt", "a/b/sub/two.txt", "a/c/three.txt", "a/bc.txt"]);
    let hit = keys_to_drop(&"a/b/".to_string(), &listed);
    assert_eq!(hit, strings(&["a/b/one.txt", "a/b/sub/two.txt"]));
}

#[test]
fn plain_path_selects_exactly_itself() {
    let listed = strings(&["a/b/file.txt", "a/b/file.txt.bak"]);
    let hit = keys_to_drop(&"a/b/file.txt".to_string(), &listed);
    assert_eq!(hit, strings(&["a/b/file.txt"]));
}

#[test]
fn prefix_with_no_match_selects_nothing() {
    let listed = strings(&["x/one.txt"]);
    let hit = keys_to_drop(&"a/b/".to_string(), &listed);
    assert!(hit.is_empty());
}

#[test]
fn prune_removes_exactly_the_deleted_keys() {
    let mut store = ManifestStore::open_or_init();
    store.insert_entry(row("a/b/one.txt"));
    store.insert_entry(row("a/b/two.txt"));
    store.insert_entry(row("a/c/three.txt"));
    let deleted = strings(&["a/b/one.txt", "a/b/two.txt"]);
    store.remove_keys(&deleted);
    assert_eq!(store.len(), 1);
    assert!(store.get_entry_by_key(&"a/c/three.txt".to_string()).is_some());
    assert!(store.get_entry_by_key(&"a/b/one.txt".to_string()).is_none());
}

#[test]
fn prune_ignores_keys_the_manifest_never_had() {
    let mut store = ManifestStore::open_or_init();
    store.insert_entry(row("kept.txt"));
    store.remove_keys(&strings(&["phantom.txt"]));
    assert_eq!(store.len(), 1);
}

#[test]
fn drop_of_prefix_then_prune_reconciles_store_and_manifest() {
    let mut store = ManifestStore::open_or_init();
    store.insert_entry(row("a/b/one.txt"));
    store.insert_entry(row("a/c/two.txt"));
    let listed = strings(&["a/b/one.txt", "a/c/two.txt"]);
    let hit = keys_to_drop(&"a/b/".to_string(), &listed);
    store.remove_keys(&hit);
    assert_eq!(store.len(), 1);
    assert!(store.get_entry_by_key(&"a/c/two.txt".to_string()).is_some());
}
