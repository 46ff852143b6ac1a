use s3b::planning::{analyze, resolve};
use s3b::scan::make_candidate;
use s3b::{EntriesRow, PlanEntry};

fn candidate(key: &str, hash: &str, modified: u64) -> PlanEntry {
    PlanEntry {
        key: key.to_string(),
        path: format!("/root/{}", key),
        hash: hash.to_string(),
        modified,
    }
}

fn row(key: &str, hash: &str, modified: u64) -> EntriesRow {
    EntriesRow {
        key: key.to_string(),
        path: format!("/root/{}", key),
        hash: hash.to_string(),
        modified,
    }
}

#[test]
fn identical_candidate_never_reaches_plan() {
    let manifest = vec![row("k", "h", 10)];
    let candidates = vec![candidate("k", "h", 10)];
    let analysis = analyze(&candidates, &manifest);
    assert_eq!(analysis.skipped_count, 1);
    assert!(analysis.planned.is_empty());
    assert!(analysis.conflicts.is_empty());
    let outcome = resolve(analysis, &Vec::new());
    assert!(outcome.entries.is_empty());
}

#[test]
fn selection_decides_which_conflicts_join() {
    let manifest = vec![row("a", "old-a", 10), row("b", "old-b", 10)];
    let candidates = vec![candidate("a", "new-a", 20), candidate("b", "new-b", 20)];
    let analysis = analyze(&candidates, &manifest);
    assert_eq!(analysis.conflicts.len(), 2);
    assert!(analysis.planned.is_empty());
    let outcome = resolve(analysis, &vec![true, false]);
    assert_eq!(outcome.entries.len(), 1);
    assert_eq!(outcome.entries[0].key, "a");
    assert_eq!(outcome.new_count, 0);
    assert_eq!(outcome.updated_count, 1);
}

#[test]
fn unselected_conflicts_are_dropped_for_the_run() {
    let manifest = vec![row("a", "old-a", 10)];
    let candidates = vec![candidate("a", "new-a", 20)];
    let analysis = analyze(&candidates, &manifest);
    let outcome = resolve(analysis, &vec![false]);
    assert!(outcome.entries.is_empty());
    assert_eq!(outcome.updated_count, 0);
}

#[test]
fn totals_add_up() {
    let manifest = vec![row("same", "h0", 1), row("conf", "hx", 50)];
    let candidates = vec![
        candidate("same", "h0", 1),
        candidate("conf", "hy", 99),
        candidate("fresh1", "h1", 2),
        candidate("fresh2", "h2", 3),
    ];
    let analysis = analyze(&candidates, &manifest);
    assert_eq!(analysis.skipped_count, 1);
    assert_eq!(analysis.planned.len(), 2);
    assert_eq!(analysis.conflicts.len(), 1);
    let outcome = resolve(analysis, &vec![true]);
    assert_eq!(outcome.entries.len(), 3);
    assert_eq!(outcome.new_count, 2);
    assert_eq!(outcome.updated_count, 1);
    assert_eq!(outcome.skipped_count, 1);
}

#[test]
fn empty_candidates_empty_outcome() {
    let manifest = vec![row("a", "h", 1)];
    let analysis = analyze(&Vec::new(), &manifest);
    assert_eq!(analysis.skipped_count, 0);
    assert!(analysis.planned.is_empty());
    assert!(analysis.conflicts.is_empty());
    assert!(analysis.warnings.is_empty());
}

#[test]
fn scenario_one_new_one_skipped_with_duplicate_warning() {
    // The scan root holds docs/a.txt (new) and docs/b.txt, which is
    // already in the manifest unchanged; both files hold the same
    // bytes, so they share one fingerprint.
    let base = "/root/scan".to_string();
    let shared = vec![42u8, 43, 44];
    let a = make_candidate(&base, &"/root/scan/docs/a.txt".to_string(), &shared, 100)
        .expect("path sits under the base");
    let b = make_candidate(&base, &"/root/scan/docs/b.txt".to_string(), &shared, 90)
        .expect("path sits under the base");
    assert_eq!(a.key, "docs/a.txt");
    assert_eq!(a.hash, b.hash);
    let manifest = vec![EntriesRow {
        key: b.key.clone(),
        path: b.path.clone(),
        hash: b.hash.clone(),
        modified: b.modified,
    }];
    let candidates = vec![a, b];
    let analysis = analyze(&candidates, &manifest);
    assert_eq!(analysis.planned.len(), 1);
    assert_eq!(analysis.planned[0].key, "docs/a.txt");
    assert_eq!(analysis.skipped_count, 1);
    assert!(analysis.conflicts.is_empty());
    assert_eq!(analysis.warnings.len(), 1);
    assert_eq!(analysis.warnings[0].key, "docs/a.txt");
    assert_eq!(analysis.warnings[0].others, vec!["docs/b.txt".to_string()]);
    let outcome = resolve(analysis, &Vec::new());
    assert_eq!(outcome.entries.len(), 1);
    assert_eq!(outcome.new_count, 1);
    assert_eq!(outcome.updated_count, 0);
    assert_eq!(outcome.skipped_count, 1);
}

#[test]
fn selected_conflict_contributes_duplicate_warning() {
    let manifest = vec![row("a", "old-a", 10), row("twin", "new-a", 5)];
    let candidates = vec![candidate("a", "new-a", 20)];
    let analysis = analyze(&candidates, &manifest);
    assert_eq!(analysis.conflicts.len(), 1);
    assert!(analysis.warnings.is_empty());
    let outcome = resolve(analysis, &vec![true]);
    assert_eq!(outcome.warnings.len(), 1);
    assert_eq!(outcome.warnings[0].key, "a");
    assert_eq!(outcome.warnings[0].others, vec!["twin".to_string()]);
}
