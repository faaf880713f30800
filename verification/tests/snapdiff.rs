use wt_store::snapdiff::SnapshotDiff;
use wt_store::snapshot::{EntryKind, SnapshotEntry};
use wt_store::ContentId;

fn id(n: u8) -> ContentId {
    let mut bytes = [0u8; 32];
    bytes[0] = n;
    bytes[31] = n;
    ContentId(bytes)
}

fn pkg(name: &str) -> Vec<SnapshotEntry> {
    let blob = (name.as_bytes()[name.len() - 1] - b'0') * 10;
    vec![
        SnapshotEntry::dir(name),
        SnapshotEntry::file(&format!("{name}/a"), id(blob), 0o644),
        SnapshotEntry::file(&format!("{name}/b"), id(blob + 1), 0o644),
    ]
}

fn sorted(mut v: Vec<SnapshotEntry>) -> Vec<SnapshotEntry> {
    v.sort_by(|a, b| {
        a.rel
            .as_bytes()
            .cmp(b.rel.as_bytes())
            .then_with(|| a.kind.cmp(&b.kind))
    });
    v
}

#[test]
fn identical_manifests_diff_to_empty() {
    let old = sorted(pkg("pkg00"));
    let new = old.clone();
    assert_eq!(SnapshotDiff::compute(&old, &new), SnapshotDiff::default());
    assert_eq!(
        SnapshotDiff::unchanged_units(&old, &new),
        vec!["pkg00".to_string()]
    );
}

#[test]
fn deep_modified_file_blocks_only_its_containing_chain() {
    let mut old = sorted(vec![
        SnapshotEntry::dir("deep"),
        SnapshotEntry::dir("deep/a"),
        SnapshotEntry::dir("deep/a/b"),
        SnapshotEntry::file("deep/a/b/c", id(9), 0o644),
    ]);
    old.extend(pkg("pkg00"));
    let old = sorted(old);

    let mut new = sorted(vec![
        SnapshotEntry::dir("deep"),
        SnapshotEntry::dir("deep/a"),
        SnapshotEntry::dir("deep/a/b"),
        SnapshotEntry::file("deep/a/b/c", id(8), 0o644),
    ]);
    new.extend(pkg("pkg00"));
    let new = sorted(new);

    let diff = SnapshotDiff::compute(&old, &new);
    assert_eq!(diff.modified.len(), 1);
    assert!(diff.added.is_empty() && diff.deleted.is_empty());
    assert_eq!(
        SnapshotDiff::unchanged_units(&old, &new),
        vec!["pkg00".to_string()]
    );
}

#[test]
fn added_package_dir_leaves_existing_units_intact() {
    let old = sorted(pkg("pkg00"));
    let mut new = sorted(pkg("pkg00"));
    new.extend(pkg("pkg01"));
    let new = sorted(new);

    let diff = SnapshotDiff::compute(&old, &new);
    assert_eq!(diff.added.len(), 3, "one dir + two files");
    assert_eq!(
        SnapshotDiff::unchanged_units(&old, &new),
        vec!["pkg00".to_string()],
        "the added sibling must not break the existing unit"
    );
}

#[test]
fn deleted_package_dir_is_classified_and_does_not_break_siblings() {
    let mut old = sorted(pkg("pkg00"));
    old.extend(pkg("pkg01"));
    let old = sorted(old);
    let new = sorted(pkg("pkg00"));

    let diff = SnapshotDiff::compute(&old, &new);
    assert_eq!(diff.deleted.len(), 3);
    assert_eq!(
        SnapshotDiff::unchanged_units(&old, &new),
        vec!["pkg00".to_string()]
    );
}

#[test]
fn mode_flip_blocks_the_containing_unit_but_not_siblings() {
    let mut old = sorted(pkg("pkg00"));
    old.extend(pkg("pkg01"));
    let old = sorted(old);

    let mut new = sorted(vec![
        SnapshotEntry::dir("pkg00"),
        SnapshotEntry::file("pkg00/a", id(0), 0o755),
        SnapshotEntry::file("pkg00/b", id(1), 0o644),
    ]);
    new.extend(pkg("pkg01"));
    let new = sorted(new);

    let diff = SnapshotDiff::compute(&old, &new);
    assert_eq!(diff.modified.len(), 1);
    assert_eq!(
        SnapshotDiff::unchanged_units(&old, &new),
        vec!["pkg01".to_string()],
        "the flipped package loses its unit, the healthy one keeps it"
    );
}

#[test]
fn root_level_files_are_never_units_and_symlinks_compare_by_target() {
    let old = sorted(vec![
        SnapshotEntry::file("root.txt", id(4), 0o644),
        SnapshotEntry::symlink("ln", "target-a"),
        SnapshotEntry::dir("p"),
        SnapshotEntry::file("p/x", id(5), 0o644),
    ]);
    let new = old.clone();
    assert_eq!(
        SnapshotDiff::unchanged_units(&old, &new),
        vec!["p".to_string()]
    );

    let retarget = sorted(vec![
        SnapshotEntry::file("root.txt", id(4), 0o644),
        SnapshotEntry::symlink("ln", "target-b"),
        SnapshotEntry::dir("p"),
        SnapshotEntry::file("p/x", id(5), 0o644),
    ]);
    let diff = SnapshotDiff::compute(&old, &retarget);
    assert_eq!(diff.modified.len(), 1);
    assert_eq!(diff.modified[0].kind, EntryKind::Symlink);
}

#[test]
fn kind_flip_counts_as_delete_plus_add_and_added_file_breaks_parent_unit() {
    let old = sorted(vec![
        SnapshotEntry::dir("d"),
        SnapshotEntry::file("d/x", id(6), 0o644),
    ]);
    let new = sorted(vec![
        SnapshotEntry::dir("d"),
        SnapshotEntry::dir("d/x"),
        SnapshotEntry::file("d/x/y", id(7), 0o644),
    ]);
    let diff = SnapshotDiff::compute(&old, &new);
    assert!(diff.modified.is_empty());
    assert_eq!(diff.deleted.len(), 1);
    assert_eq!(diff.added.len(), 2, "new dir entry + file");
    assert!(
        SnapshotDiff::unchanged_units(&old, &new).is_empty(),
        "nothing survives a kind flip under the only directory"
    );
}

#[test]
fn maximal_units_suppress_fully_unchanged_descendants() {
    let old = sorted(vec![
        SnapshotEntry::dir("deep"),
        SnapshotEntry::dir("deep/inner"),
        SnapshotEntry::file("deep/inner/f", id(1), 0o644),
        SnapshotEntry::file("root.txt", id(2), 0o644),
    ]);
    let new = old.clone();
    assert_eq!(
        SnapshotDiff::unchanged_units(&old, &new),
        vec!["deep".to_string()]
    );
}

#[test]
fn units_come_longest_first_then_in_path_order() {
    let old = sorted(vec![
        SnapshotEntry::dir("bb"),
        SnapshotEntry::dir("a"),
        SnapshotEntry::dir("ccc"),
        SnapshotEntry::dir("zz"),
    ]);
    let new = old.clone();
    assert_eq!(
        SnapshotDiff::unchanged_units(&old, &new),
        vec!["ccc".to_string(), "bb".to_string(), "zz".to_string(), "a".to_string()]
    );
    let diff = SnapshotDiff::compute(&old, &new);
    assert_eq!(diff.changed_count(), 0);
}

fn applied(old: &[SnapshotEntry], diff: &SnapshotDiff) -> Vec<SnapshotEntry> {
    let mut tree: std::collections::BTreeMap<String, SnapshotEntry> =
        old.iter().map(|e| (e.rel.clone(), e.clone())).collect();
    for e in &diff.deleted {
        tree.remove(&e.rel);
    }
    for e in diff.modified.iter().chain(diff.added.iter()) {
        tree.insert(e.rel.clone(), e.clone());
    }
    tree.into_values().collect()
}

#[test]
fn applying_the_diff_to_the_old_tree_gives_the_new_tree() {
    let old = wt_store::snapshot::Manifest::new(vec![
        SnapshotEntry::dir("d"),
        SnapshotEntry::file("d/kept", id(1), 0o644),
        SnapshotEntry::file("d/edited", id(2), 0o644),
        SnapshotEntry::file("d/chmod", id(3), 0o644),
        SnapshotEntry::file("gone", id(4), 0o644),
        SnapshotEntry::file("flip", id(5), 0o644),
        SnapshotEntry::symlink("link", "d/kept"),
    ])
    .unwrap();
    let new = wt_store::snapshot::Manifest::new(vec![
        SnapshotEntry::dir("d"),
        SnapshotEntry::file("d/kept", id(1), 0o644),
        SnapshotEntry::file("d/edited", id(9), 0o644),
        SnapshotEntry::file("d/chmod", id(3), 0o755),
        SnapshotEntry::dir("flip"),
        SnapshotEntry::symlink("link", "d/edited"),
        SnapshotEntry::file("fresh", id(7), 0o644),
    ])
    .unwrap();
    let diff = SnapshotDiff::compute(&old.entries, &new.entries);
    assert_eq!(applied(&old.entries, &diff), new.entries);
    let same = SnapshotDiff::compute(&new.entries, &new.entries);
    assert_eq!(applied(&new.entries, &same), new.entries);
}

#[test]
fn changed_count_is_zero_only_for_equal_manifests() {
    let old = sorted(pkg("pkg10"));
    assert_eq!(SnapshotDiff::compute(&old, &old.clone()).changed_count(), 0);
    let mut new = old.clone();
    new[1] = SnapshotEntry::file("pkg10/a", id(99), 0o644);
    assert_eq!(SnapshotDiff::compute(&old, &new).changed_count(), 1);
    let mut exec = old.clone();
    exec[2] = SnapshotEntry::file("pkg10/b", id(1), 0o755);
    assert_eq!(SnapshotDiff::compute(&old, &exec).changed_count(), 1);
}
