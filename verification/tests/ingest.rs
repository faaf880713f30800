use wt_store::ingest::{manifest_from_parts, Ingested};
use wt_store::snapshot::{EntryKind, DIR_MODE, EXEC_FILE_MODE, PLAIN_FILE_MODE, SYMLINK_MODE};
use wt_store::ContentId;

fn id(n: u8) -> ContentId {
    let mut bytes = [0u8; 32];
    bytes[0] = n;
    bytes[31] = n;
    ContentId(bytes)
}

fn sample() -> Ingested {
    Ingested {
        dirs: vec!["node_modules".into(), "node_modules/pkg".into(), "node_modules/empty".into()],
        dir_modes: vec![("node_modules/pkg".into(), 0o40700)],
        files: vec![
            ("node_modules/pkg/a.js".into(), id(1)),
            ("node_modules/pkg/b.sh".into(), id(2)),
            ("node_modules/pkg/c.js".into(), id(1)),
        ],
        file_sizes: vec![
            ("node_modules/pkg/a.js".into(), 10),
            ("node_modules/pkg/b.sh".into(), 5),
            ("node_modules/pkg/c.js".into(), 10),
        ],
        symlinks: vec![("node_modules/.bin/x".into(), "../pkg/b.sh".into())],
        modes: vec![
            ("node_modules/pkg/a.js".into(), 0o644),
            ("node_modules/pkg/b.sh".into(), 0o755),
            ("node_modules/pkg/c.js".into(), 0o600),
        ],
    }
}

#[test]
fn ingest_converts_to_a_snapshot_manifest() {
    let m = sample().to_snapshot_manifest("node_modules", Some(id(7))).expect("valid parts");
    let rels: Vec<(&str, EntryKind, u32)> =
        m.entries.iter().map(|e| (e.rel.as_str(), e.kind, e.mode)).collect();
    assert_eq!(
        rels,
        vec![
            (".bin/x", EntryKind::Symlink, SYMLINK_MODE),
            ("empty", EntryKind::Dir, DIR_MODE),
            ("pkg", EntryKind::Dir, 0o700),
            ("pkg/a.js", EntryKind::File, PLAIN_FILE_MODE),
            ("pkg/b.sh", EntryKind::File, EXEC_FILE_MODE),
            ("pkg/c.js", EntryKind::File, PLAIN_FILE_MODE),
        ]
    );
    assert_eq!(m.lockfile_hash, Some(id(7)));
    assert_eq!(m.total_size, 15, "distinct blobs counted once");
    let owned = sample().into_snapshot_manifest("node_modules", Some(id(7))).unwrap();
    assert_eq!(owned, m);
}

#[test]
fn ingest_parts_outside_the_root_or_missing_metadata_are_refused() {
    let mut outside = sample();
    outside.dirs.push("elsewhere".into());
    assert!(outside.to_snapshot_manifest("node_modules", None).is_err());

    let mut no_mode = sample();
    no_mode.modes.pop();
    assert!(no_mode.to_snapshot_manifest("node_modules", None).is_err());

    let mut no_size = sample();
    no_size.file_sizes.remove(1);
    assert!(no_size.to_snapshot_manifest("node_modules", None).is_err());

    let s = sample();
    assert!(manifest_from_parts(
        &s.dirs, &s.dir_modes, &s.files, &s.file_sizes, &s.symlinks, &s.modes, "node_modules/pkg", None
    )
    .is_err());
}
