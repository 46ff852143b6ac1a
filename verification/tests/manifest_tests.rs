use s3b::manifest::ManifestStore;
use s3b::{EntriesRow, PlanEntry};

fn row(key: &str, hash: &str, modified: u64) -> EntriesRow {
    EntriesRow {
        key: key.to_string(),
        path: format!("/root/{}", key),
        hash: hash.to_string(),
        modified,
    }
}

fn entry(key: &str, hash: &str, modified: u64) -> PlanEntry {
    PlanEntry {
        key: key.to_string(),
        path: format!("/root/{}", key),
        hash: hash.to_string(),
        modified,
    }
}

#[test]
fn fresh_store_is_empty() {
    let store = ManifestStore::open_or_init();
    assert_eq!(store.len(), 0);
    assert!(store.get_all_entries().is_empty());
}

#[test]
fn insert_then_lookup() {
    let mut store = ManifestStore::open_or_init();
    store.insert_entry(row("k", "h", 5));
    let found = store.get_entry_by_key(&"k".to_string()).expect("inserted key must be found");
    assert_eq!(found.hash, "h");
    assert_eq!(found.modified, 5);
    assert!(store.get_entry_by_key(&"missing".to_string()).is_none());
}

#[test]
fn update_overwrites_only_its_key() {
    let mut store = ManifestStore::open_or_init();
    store.insert_entry(row("a", "h1", 1));
    store.insert_entry(row("b", "h2", 2));
    store.update_entry_by_key(row("a", "h9", 9));
    assert_eq!(store.get_entry_by_key(&"a".to_string()).unwrap().hash, "h9");
    assert_eq!(store.get_entry_by_key(&"b".to_string()).unwrap().hash, "h2");
    assert_eq!(store.len(), 2);
}

#[test]
fn upsert_inserts_then_updates() {
    let mut store = ManifestStore::open_or_init();
    store.upsert_entry(row("k", "h1", 1));
    assert_eq!(store.len(), 1);
    store.upsert_entry(row("k", "h2", 2));
    assert_eq!(store.len(), 1);
    assert_eq!(store.get_entry_by_key(&"k".to_string()).unwrap().hash, "h2");
}

#[test]
fn delete_removes_exactly_one_key() {
    let mut store = ManifestStore::open_or_init();
    store.insert_entry(row("a", "h1", 1));
    store.insert_entry(row("b", "h2", 2));
    store.delete_entry_by_key(&"a".to_string());
    assert!(store.get_entry_by_key(&"a".to_string()).is_none());
    assert!(store.get_entry_by_key(&"b".to_string()).is_some());
    assert_eq!(store.len(), 1);
}

#[test]
fn from_rows_rejects_duplicate_keys() {
    assert!(ManifestStore::from_rows(vec![row("k", "h1", 1), row("k", "h2", 2)]).is_none());
    let ok = ManifestStore::from_rows(vec![row("a", "h1", 1), row("b", "h2", 2)]);
    assert_eq!(ok.expect("unique keys must be accepted").len(), 2);
}

#[test]
fn apply_plan_updates_and_inserts() {
    let mut store = ManifestStore::open_or_init();
    store.insert_entry(row("known", "old", 1));
    let entries = vec![entry("known", "new", 2), entry("fresh", "h", 3)];
    store.apply_plan(&entries);
    assert_eq!(store.len(), 2);
    assert_eq!(store.get_entry_by_key(&"known".to_string()).unwrap().hash, "new");
    assert_eq!(store.get_entry_by_key(&"fresh".to_string()).unwrap().hash, "h");
}

#[test]
fn empty_plan_leaves_manifest_unchanged() {
    let mut store = ManifestStore::open_or_init();
    store.insert_entry(row("a", "h1", 1));
    store.insert_entry(row("b", "h2", 2));
    store.apply_plan(&Vec::new());
    assert_eq!(store.len(), 2);
    assert_eq!(store.get_entry_by_key(&"a".to_string()).unwrap().hash, "h1");
    assert_eq!(store.get_entry_by_key(&"b".to_string()).unwrap().hash, "h2");
}

#[test]
fn rows_by_hash_in_order() {
    let mut store = ManifestStore::open_or_init();
    store.insert_entry(row("a", "h", 1));
    store.insert_entry(row("b", "x", 2));
    store.insert_entry(row("c", "h", 3));
    let hits = store.get_entries_by_hash(&"h".to_string());
    assert_eq!(hits.len(), 2);
    assert_eq!(hits[0].key, "a");
    assert_eq!(hits[1].key, "c");
}

#[test]
fn apply_plan_keeps_plan_order_for_equal_keys() {
    let mut store = ManifestStore::open_or_init();
    let entries = vec![entry("k", "first", 1), entry("k", "second", 2)];
    store.apply_plan(&entries);
    assert_eq!(store.len(), 1);
    assert_eq!(store.get_entry_by_key(&"k".to_string()).unwrap().hash, "second");
}
