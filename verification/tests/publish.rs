use wt_store::disk::DiskStore;
use wt_store::hydrate::{
    claimed_refs, fallback_diagnostic, plan_fallback, resolve_dest_path, strategy_name, total_file_bytes, BatchItem,
    HydrateOutcome, HydrationReceipt, StrategyPolicy,
};
use wt_store::ingest::Ingested;
use wt_store::gc::GcMode;
use wt_store::projection::{SnapshotHydration, SnapshotOutcome, SnapshotProjectionEngine};
use wt_store::publish::{
    collision_outcome, entry_blobs, plan_incremental, BuildError, PublishOptions, PublishOutcome,
    PublishReceipt, SnapshotBuildTiming,
};
use wt_store::snapshot::{EntryKind, Manifest, SnapshotEntry, DIR_MODE, EXEC_FILE_MODE, PLAIN_FILE_MODE};
use wt_store::ContentId;

fn id(n: u8) -> ContentId {
    let mut bytes = [0u8; 32];
    bytes[0] = n;
    bytes[31] = n;
    ContentId(bytes)
}

#[test]
fn publish_options_build_up() {
    let o = PublishOptions::new();
    assert_eq!(o, PublishOptions::default());
    assert!(!o.paranoid && o.lockfile_hash.is_none() && o.base_snapshot.is_none());
    let o = o.paranoid(true).lockfile_hash(Some(id(1))).base_snapshot(Some(id(2)));
    assert!(o.paranoid);
    assert_eq!(o.lockfile_hash, Some(id(1)));
    assert_eq!(o.base_snapshot, Some(id(2)));
    let t = SnapshotBuildTiming::default();
    assert_eq!(t.verify_ms + t.link_train_ms + t.publish_ms + t.clone_units_ms, 0);
    let r = PublishReceipt { outcome: PublishOutcome::Published, timing: t };
    assert_eq!(r.outcome, PublishOutcome::Published);
    assert_eq!(collision_outcome(true), PublishOutcome::WinnerValid);
    assert_eq!(collision_outcome(false), PublishOutcome::WinnerInvalid);
}

#[test]
fn entry_blobs_are_distinct_and_sorted() {
    let es = vec![
        SnapshotEntry::file("a", id(3), 0o644),
        SnapshotEntry::dir("d"),
        SnapshotEntry::file("b", id(1), 0o644),
        SnapshotEntry::file("c", id(3), 0o644),
    ];
    let b = entry_blobs(&es);
    assert_eq!(b.len(), 2);
    assert_eq!(b.get(0), id(1));
    assert_eq!(b.get(1), id(3));
}

#[test]
fn incremental_plan_orders_deletions_and_flags_mode_only_changes() {
    let old = Manifest::new(vec![
        SnapshotEntry::dir("gone"),
        SnapshotEntry::file("gone/deep/x", id(1), 0o644),
        SnapshotEntry::dir("gone/deep"),
        SnapshotEntry::file("keep", id(2), 0o644),
        SnapshotEntry::file("chmod", id(3), 0o644),
        SnapshotEntry::file("swap", id(4), 0o644),
    ])
    .unwrap();
    let new = Manifest::new(vec![
        SnapshotEntry::file("keep", id(2), 0o644),
        SnapshotEntry::file("chmod", id(3), 0o755),
        SnapshotEntry::file("swap", id(5), 0o644),
        SnapshotEntry::file("fresh", id(6), 0o644),
        SnapshotEntry::dir("newdir"),
    ])
    .unwrap();
    let plan = plan_incremental(&old, &new);
    let dels: Vec<&str> = plan.deletions.iter().map(|e| e.rel.as_str()).collect();
    assert_eq!(dels, vec!["gone/deep/x", "gone/deep", "gone"]);
    let mods: Vec<(&str, bool)> = plan.modified.iter().map(|(e, m)| (e.rel.as_str(), *m)).collect();
    assert_eq!(mods, vec![("chmod", true), ("swap", false)]);
    let adds: Vec<&str> = plan.additions.iter().map(|e| e.rel.as_str()).collect();
    assert_eq!(adds, vec!["fresh", "newdir"]);
    assert_eq!(plan.linked_files, 2);
}

#[test]
fn projection_entries_use_canonical_modes() {
    let dirs = vec!["nm".to_string(), "nm/p".to_string()];
    let files = vec![("nm/p/a".to_string(), id(1)), ("nm/p/b".to_string(), id(2))];
    let symlinks = vec![("nm/l".to_string(), "p/a".to_string())];
    let modes = vec![("nm/p/b".to_string(), 0o700)];
    let es = SnapshotProjectionEngine::manifest_entries(&dirs, &files, &symlinks, &modes, "nm").unwrap();
    let v: Vec<(&str, EntryKind, u32)> = es.iter().map(|e| (e.rel.as_str(), e.kind, e.mode)).collect();
    assert_eq!(
        v,
        vec![
            ("p", EntryKind::Dir, DIR_MODE),
            ("p/a", EntryKind::File, PLAIN_FILE_MODE),
            ("p/b", EntryKind::File, EXEC_FILE_MODE),
            ("l", EntryKind::Symlink, 0o777),
        ]
    );
    assert!(SnapshotProjectionEngine::manifest_entries(&dirs, &files, &symlinks, &modes, "other").is_err());
    let sizes = vec![("nm/p/a".to_string(), 3), ("nm/p/b".to_string(), 4)];
    let m = SnapshotProjectionEngine::project_manifest(&dirs, &files, &sizes, &symlinks, &modes, "nm", None).unwrap();
    assert_eq!(m.total_size, 7);
    assert_eq!(SnapshotProjectionEngine::file_count(&m), 2);
}

#[test]
fn projection_decisions() {
    assert!(SnapshotProjectionEngine::lockfile_hit_fresh(0, 500));
    assert!(SnapshotProjectionEngine::lockfile_hit_fresh(100, 101));
    assert!(!SnapshotProjectionEngine::lockfile_hit_fresh(100, 102));
    assert!(SnapshotProjectionEngine::incremental_worthwhile(4, 10));
    assert!(!SnapshotProjectionEngine::incremental_worthwhile(5, 10));
    assert!(!SnapshotProjectionEngine::incremental_worthwhile(0, 0));
    let files = vec![("a".to_string(), id(1)), ("b".to_string(), id(2)), ("c".to_string(), id(2))];
    assert_eq!(SnapshotProjectionEngine::heal_source(&files, &id(2)), Some("b".to_string()));
    assert_eq!(SnapshotProjectionEngine::heal_source(&files, &id(3)), None);
    assert_eq!(SnapshotProjectionEngine::heal_retry(false, &BuildError::MissingBlob(id(4))), Some(id(4)));
    assert_eq!(SnapshotProjectionEngine::heal_retry(true, &BuildError::MissingBlob(id(4))), None);
    assert_eq!(SnapshotProjectionEngine::heal_retry(false, &BuildError::Fatal("x".into())), None);
    assert_eq!(SnapshotProjectionEngine::build_mode(true), "v2");
    assert_eq!(SnapshotProjectionEngine::build_mode(false), "build");
}

#[test]
fn hydration_destinations_refs_and_receipts() {
    assert_eq!(resolve_dest_path("/wt", "nm", "nm/p/a"), "/wt/nm/p/a");
    assert_eq!(resolve_dest_path("/wt", "nm", "nm"), "/wt/nm");
    assert_eq!(resolve_dest_path("/wt", "nm", "p/a"), "/wt/nm/p/a");
    assert_eq!(resolve_dest_path("/wt", "", "p/a"), "/wt/p/a");
    let files = vec![("a".to_string(), id(2)), ("b".to_string(), id(1)), ("c".to_string(), id(2))];
    let refs = claimed_refs(GcMode::Legacy, &files);
    assert_eq!((refs.len(), refs.get(0), refs.get(1)), (2, id(1), id(2)));
    assert!(claimed_refs(GcMode::MarkSweepNoRefs, &files).is_empty());
    assert_eq!(total_file_bytes(&vec![("a".to_string(), 3), ("b".to_string(), 9)]), 12);

    let hit = HydrationReceipt::pinned_hit(12, 5);
    assert_eq!(hit.strategy, "snapshot-hit");
    assert!(hit.snapshot_hit);
    let info = SnapshotHydration {
        hash: id(9),
        files: 3,
        mode: "v2".to_string(),
        cloned_units: 1,
        linked_files: 2,
        lookup_ms: 0,
        clonefile_ms: 0,
        build: None,
    };
    let r = HydrationReceipt::projected(&info, 3, 77, 1, vec!["d".to_string()]);
    assert_eq!(r.strategy, "snapshot-v2");
    assert_eq!((r.bytes_shared, r.v2_cloned, r.v2_linked), (77, 1, 2));
    let p = HydrationReceipt::placed("hardlink".to_string(), 4, 4, 1, 10, 20, 2, vec![]);
    assert_eq!(p.files_copied, 3);
    assert!(!p.snapshot_hit);
    let p = HydrationReceipt::placed("copy-on-write".to_string(), 4, 1, 3, 10, 20, 2, vec![]);
    assert_eq!(p.files_copied, 0);
    assert_eq!(fallback_diagnostic(&SnapshotOutcome::FellBack(Some("x".into()))), Some("x".to_string()));
    assert_eq!(fallback_diagnostic(&SnapshotOutcome::Failed("boom".into())), Some("boom".to_string()));
    assert_eq!(fallback_diagnostic(&SnapshotOutcome::FellBack(None)), None);
}

#[test]
fn strategies_report_their_names() {
    assert_eq!(strategy_name(StrategyPolicy::Default), "copy-on-write");
    assert_eq!(strategy_name(StrategyPolicy::Hardlink), "hardlink");
    assert_eq!(strategy_name(StrategyPolicy::ForceByteCopy), "byte-copy");
}

#[test]
fn fallback_plan_places_files_links_and_restores_dir_modes_children_first() {
    let store = DiskStore::open("/s", None);
    let ing = Ingested {
        dirs: vec!["nm".to_string(), "nm/pkg".to_string(), "nm/bare".to_string()],
        dir_modes: vec![("nm".to_string(), 0o755), ("nm/pkg".to_string(), 0o700)],
        files: vec![("nm/pkg/a".to_string(), id(1)), ("nm/b".to_string(), id(2))],
        file_sizes: vec![("nm/pkg/a".to_string(), 5)],
        symlinks: vec![("nm/l".to_string(), "pkg/a".to_string())],
        modes: vec![("nm/b".to_string(), 0o755), ("nm/pkg/a".to_string(), 0o644)],
    };
    let plan = plan_fallback(&store, "/wt", "nm", &ing);
    assert_eq!(plan.dirs, vec!["/wt/nm".to_string(), "/wt/nm/pkg".to_string(), "/wt/nm/bare".to_string()]);
    assert_eq!(
        plan.items,
        vec![
            BatchItem {
                src: format!("/s/objects/01/{}", &id(1).to_string()[2..]),
                dest: "/wt/nm/pkg/a".to_string(),
                mode: Some(0o644),
                size: 5,
            },
            BatchItem {
                src: format!("/s/objects/02/{}", &id(2).to_string()[2..]),
                dest: "/wt/nm/b".to_string(),
                mode: Some(0o755),
                size: 0,
            },
        ]
    );
    assert_eq!(plan.links, vec![("/wt/nm/l".to_string(), "pkg/a".to_string())]);
    assert_eq!(plan.dir_modes, vec![("/wt/nm/pkg".to_string(), 0o700), ("/wt/nm".to_string(), 0o755)]);
}

#[test]
fn pinned_fast_path_outcomes() {
    let info = SnapshotHydration {
        hash: id(3),
        files: 12,
        mode: "hit".to_string(),
        cloned_units: 0,
        linked_files: 0,
        lookup_ms: 0,
        clonefile_ms: 0,
        build: None,
    };
    match HydrateOutcome::after_pinned(SnapshotOutcome::Hydrated(info), 4) {
        HydrateOutcome::Hydrated(r) => {
            assert_eq!(r.strategy, "snapshot-hit");
            assert_eq!((r.files_total, r.files_copied, r.elapsed_ms), (12, 0, 4));
            assert!(r.snapshot_hit);
        }
        other => panic!("expected a hit, got {other:?}"),
    }
    assert!(matches!(
        HydrateOutcome::after_pinned(SnapshotOutcome::FellBack(Some("miss".into())), 1),
        HydrateOutcome::NeedIngest { diagnostic: Some(d) } if d == "miss"
    ));
    assert!(matches!(
        HydrateOutcome::after_pinned(SnapshotOutcome::FellBack(None), 1),
        HydrateOutcome::NeedIngest { diagnostic: None }
    ));
    assert!(matches!(
        HydrateOutcome::after_pinned(SnapshotOutcome::Failed("boom".into()), 1),
        HydrateOutcome::Failed(m) if m == "boom"
    ));
}

#[test]
fn error_messages_name_the_content() {
    let hex = id(5).to_string();
    assert_eq!(
        wt_store::Error::Corrupted(id(5)).to_string(),
        format!("store content {hex} failed hash verification")
    );
    assert_eq!(wt_store::Error::UnknownContent(id(5)).to_string(), format!("content {hex} not in store"));
    assert_eq!(
        wt_store::Error::RefCountUnderflow(id(5)).to_string(),
        format!("reference count underflow for {hex}")
    );
    let io = wt_store::Error::Io(std::io::Error::new(std::io::ErrorKind::Other, "disk on fire"));
    assert_eq!(io.to_string(), "store io error: disk on fire");
    assert_eq!(
        BuildError::MissingBlob(id(5)).to_string(),
        format!("content {hex} vanished during snapshot build")
    );
    assert_eq!(BuildError::Fatal("boom".to_string()).to_string(), "boom");
    assert!(BuildError::Io(wt_store::Error::Corrupted(id(5))).to_string().contains("hash verification"));
}
