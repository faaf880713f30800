use wt_store::scrub::{tree_paths_match, ScrubReport};
use wt_store::snapshot::{Manifest, SnapshotEntry};
use wt_store::ContentId;

fn id(n: u8) -> ContentId {
    ContentId([n; 32])
}

fn manifest() -> Manifest {
    Manifest::new(vec![
        SnapshotEntry::file("f1.txt", id(1), 0o644),
        SnapshotEntry::dir("sub"),
        SnapshotEntry::file("sub/f2.txt", id(2), 0o644),
    ])
    .unwrap()
}

fn strings(v: &[&str]) -> Vec<String> {
    v.iter().map(|s| s.to_string()).collect()
}

#[test]
fn walked_tree_in_listing_order_matches_its_manifest() {
    let m = manifest();
    assert!(tree_paths_match(&strings(&["sub", "sub/f2.txt", "f1.txt"]), &m));
    assert!(tree_paths_match(&strings(&["f1.txt", "sub", "sub/f2.txt"]), &m));
}

#[test]
fn missing_extra_or_repeated_paths_fail_the_tree_check() {
    let m = manifest();
    assert!(!tree_paths_match(&strings(&["f1.txt", "sub"]), &m));
    assert!(!tree_paths_match(&strings(&["f1.txt", "sub", "sub/f2.txt", "stray"]), &m));
    assert!(!tree_paths_match(&strings(&["f1.txt", "sub", "sub/f3.txt"]), &m));
    assert!(!tree_paths_match(&strings(&["f1.txt", "sub", "sub"]), &m));
    let empty = Manifest::new(Vec::new()).unwrap();
    assert!(tree_paths_match(&Vec::new(), &empty));
    assert!(!tree_paths_match(&strings(&["x"]), &empty));
}

#[test]
fn scrub_report_compares_by_value() {
    let a = ScrubReport {
        scanned: 60,
        corrupt: vec![id(5), id(18)],
        deleted: 2,
        snapshot_dirs_scanned: 1,
        corrupt_snapshots: vec![id(7).to_string()],
        snapshot_dirs_deleted: 1,
    };
    let b = a.clone();
    assert_eq!(a, b);
    assert_ne!(a, ScrubReport { deleted: 0, ..b });
}
