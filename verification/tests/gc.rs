use wt_store::gc::{
    audit_lines, classify_snapshot_entry, cleanup_branch, distinct_blobs, invalid_lease_reclaimable,
    lease_reclaimable, marked_flags, mirror_fate_of, mru_sort, plan_reclaim, plan_reclaim_checked, plan_retention, plan_sweep, snapshot_dir_fate,
    referenced_flags, release_set, retirement_receipt, snapshot_weight, GcMode, MarkReport,
    MarkSwept, MirrorFacts, MirrorFate, Retention, RetirementReceipt, SnapshotCandidate, SnapshotDirFate,
    SnapshotDirEntry, StoreReclaimer, SweepPolicy, SweepSummary,
};
use wt_store::idset::IdSet;
use wt_store::mirror::StoreMirror;
use wt_store::snapshot::{Manifest, SnapshotEntry};
use wt_store::stamp::{cutoff_of, Span, Timestamp};
use wt_store::ContentId;

fn id(n: u8) -> ContentId {
    let mut bytes = [0u8; 32];
    bytes[0] = n;
    bytes[31] = n;
    ContentId(bytes)
}

fn set_of(ids: &[u8]) -> IdSet {
    let mut s = IdSet::new();
    for &n in ids {
        s.insert(id(n));
    }
    s
}

fn members(s: &IdSet) -> Vec<ContentId> {
    (0..s.len()).map(|i| s.get(i)).collect()
}

fn at(secs: u64) -> Timestamp {
    Timestamp { secs, nanos: 0 }
}

#[test]
fn gc_mode_marker_round_trips_and_defaults_to_legacy() {
    assert_eq!(GcMode::MARK_SWEEP, "mark-sweep");
    assert_eq!(GcMode::MARK_SWEEP_NO_REFS, "mark-sweep-no-refs");
    for mode in [GcMode::Legacy, GcMode::MarkSweep, GcMode::MarkSweepNoRefs] {
        let marker = mode.marker();
        assert_eq!(GcMode::from_marker(marker.as_deref()), mode);
    }
    assert_eq!(GcMode::MarkSweep.marker().as_deref(), Some("mark-sweep\n"));
    assert_eq!(GcMode::Legacy.marker(), None);
    assert_eq!(GcMode::from_text("  mark-sweep-no-refs\r\n"), Some(GcMode::MarkSweepNoRefs));
    assert_eq!(GcMode::from_text("legacy"), None);
    assert_eq!(GcMode::from_marker(Some("garbage")), GcMode::Legacy);
    assert_eq!(GcMode::from_marker(None), GcMode::Legacy);
    assert!(GcMode::Legacy.text().is_empty());
}

#[test]
fn cutoff_is_now_minus_grace_and_clamps_far_past() {
    let now = Timestamp { secs: 100, nanos: 5 };
    assert_eq!(cutoff_of(now, Span { secs: 15, nanos: 10 }), 84_999_999_995);
    assert_eq!(cutoff_of(now, Span { secs: 200, nanos: 0 }), -99_999_999_995);
    assert_eq!(cutoff_of(now, Span { secs: u64::MAX, nanos: 0 }), 0);
}

#[test]
fn default_policy_is_fifteen_minutes_and_cap_64() {
    let p = SweepPolicy::default();
    assert_eq!(p.grace, Span { secs: 900, nanos: 0 });
    assert_eq!(p.snapshot_cap, 64);
    assert_eq!(p.max_snapshot_bytes, None);
    assert!(!p.dry_run);
}

#[test]
fn mirror_fates_follow_root_validation_and_grace() {
    let facts = |ignored, young, wt, gd, sc| MirrorFacts {
        ignored,
        young,
        worktree_is_dir: wt,
        gitdir_exists: gd,
        sidecar_exists: sc,
    };
    assert_eq!(mirror_fate_of(facts(true, true, true, true, true), true), MirrorFate::Ignored);
    assert_eq!(mirror_fate_of(facts(false, true, true, true, true), false), MirrorFate::Invalid);
    assert_eq!(mirror_fate_of(facts(false, false, true, true, true), true), MirrorFate::Live);
    assert_eq!(mirror_fate_of(facts(false, true, true, true, false), true), MirrorFate::Live);
    assert_eq!(
        mirror_fate_of(facts(false, false, true, true, false), true),
        MirrorFate::Dead { marks: false, remove: false }
    );
    assert_eq!(
        mirror_fate_of(facts(false, true, false, true, true), true),
        MirrorFate::Dead { marks: true, remove: false }
    );
    assert_eq!(
        mirror_fate_of(facts(false, false, false, false, false), true),
        MirrorFate::Dead { marks: false, remove: true }
    );
}

fn manifest_with(blobs: &[u8]) -> Manifest {
    let entries = blobs
        .iter()
        .enumerate()
        .map(|(i, &n)| SnapshotEntry::file(&format!("f{i}"), id(n), 0o644))
        .chain(std::iter::once(SnapshotEntry::dir("d")))
        .collect();
    Manifest::new(entries).expect("valid manifest")
}

#[test]
fn marking_through_a_mirror_covers_files_and_resolved_snapshots() {
    let mut m = StoreMirror::new("/wt".into(), "/gd".into());
    m.files.insert(id(1));
    m.snapshots.insert(id(50));
    m.snapshots.insert(id(60));
    let resolved = vec![Some(manifest_with(&[2, 3])), None];
    let mut report = MarkReport::new();
    report.mark_through(&m, &resolved);
    assert_eq!(members(&report.marked), vec![id(1), id(2), id(3)]);
    assert_eq!(members(&report.referenced_snapshots), vec![id(50)]);
    assert_eq!(report.unresolved_snapshots, 1);
}

#[test]
fn observing_mirrors_counts_marks_and_collects_stale_ones() {
    let mut m = StoreMirror::new("/wt".into(), "/gd".into());
    m.files.insert(id(7));
    let live = MirrorFacts {
        ignored: false,
        young: false,
        worktree_is_dir: true,
        gitdir_exists: true,
        sidecar_exists: true,
    };
    let gone = MirrorFacts { worktree_is_dir: false, ..live };
    let mut report = MarkReport::new();
    assert_eq!(report.observe("a".into(), live, Ok(m.clone()), &vec![]), MirrorFate::Live);
    assert_eq!(
        report.observe("b".into(), gone, Ok(m.clone()), &vec![]),
        MirrorFate::Dead { marks: false, remove: true }
    );
    assert_eq!(
        report.observe("c".into(), MirrorFacts { young: true, ..live }, Err("bad".into()), &vec![]),
        MirrorFate::Invalid
    );
    assert_eq!(report.live_mirrors, 1);
    assert_eq!(report.dead_mirrors, 1);
    assert_eq!(report.invalid, vec![("c".to_string(), "bad".to_string())]);
    assert_eq!(report.invalid_young, 1);
    assert_eq!(report.stale_mirrors_removed, vec!["b".to_string()]);
    assert_eq!(members(&report.marked), vec![id(7)]);
}

#[test]
fn reclaim_plan_skips_live_young_and_vanished_blobs() {
    let ids = vec![id(1), id(2), id(3), id(4)];
    let marked = set_of(&[1]);
    let live = marked_flags(&ids, &marked);
    assert_eq!(live, vec![true, false, false, false]);
    let meta = vec![Some((at(10), 1)), Some((at(500), 2)), Some((at(10), 30)), None];
    let cutoff = 100_000_000_000i128;
    let (gone, bytes) = plan_reclaim(&ids, &live, &meta, cutoff);
    assert_eq!(gone, vec![id(3)]);
    assert_eq!(bytes, 30);

    let refs = referenced_flags(&vec![Some(2), Some(0), None, Some(1)]);
    assert_eq!(refs, vec![true, false, false, true]);
    let (gone, bytes) = plan_reclaim(&ids, &refs, &meta, cutoff);
    assert_eq!(gone, vec![id(3)]);
    assert_eq!(bytes, 30);
}

fn cand(last_use: u64, size: u64, is_young: bool) -> SnapshotCandidate {
    SnapshotCandidate { last_use, size, is_young }
}

#[test]
fn retention_orders_most_recent_first_with_stable_ties() {
    let c = vec![cand(5, 1, false), cand(9, 1, false), cand(9, 1, false), cand(1, 1, false)];
    assert_eq!(mru_sort(&c), vec![1, 2, 0, 3]);
}

#[test]
fn retention_without_custom_budget_removes_every_aged_out_snapshot() {
    let c = vec![cand(5, 10, false), cand(9, 10, true), cand(1, 10, false)];
    let (order, verdicts) = plan_retention(&c, 64, None);
    assert_eq!(order, vec![1, 0, 2]);
    assert_eq!(verdicts, vec![Retention::Keep, Retention::GraceRemove, Retention::GraceRemove]);
}

#[test]
fn retention_cap_and_byte_budget_evict_least_recently_used() {
    let c = vec![cand(1, 10, false), cand(2, 10, false), cand(3, 10, false), cand(4, 10, true)];
    let (order, verdicts) = plan_retention(&c, 2, None);
    assert_eq!(order, vec![3, 2, 1, 0]);
    assert_eq!(
        verdicts,
        vec![Retention::Keep, Retention::Keep, Retention::CapEvict, Retention::CapEvict]
    );
    let (_, verdicts) = plan_retention(&c, 64, Some(25));
    assert_eq!(
        verdicts,
        vec![Retention::Keep, Retention::Keep, Retention::CapEvict, Retention::CapEvict]
    );
    let (_, verdicts) = plan_retention(&c, 64, Some(5));
    assert_eq!(
        verdicts,
        vec![Retention::Keep, Retention::CapEvict, Retention::CapEvict, Retention::CapEvict]
    );
}

#[test]
fn snapshot_directory_names_are_classified() {
    assert_eq!(classify_snapshot_entry("index.tsv"), SnapshotDirEntry::Metadata);
    assert_eq!(classify_snapshot_entry("metadata.lock"), SnapshotDirEntry::Metadata);
    assert_eq!(classify_snapshot_entry("tmp"), SnapshotDirEntry::TmpDir);
    assert_eq!(
        classify_snapshot_entry(&id(9).to_string()),
        SnapshotDirEntry::Snapshot(id(9))
    );
    assert_eq!(classify_snapshot_entry("abc.tmp123"), SnapshotDirEntry::Debris);
}

#[test]
fn snapshot_weight_prefers_recorded_total() {
    assert_eq!(snapshot_weight(77, &vec![Some(1)]), 77);
    assert_eq!(snapshot_weight(0, &vec![Some(1), None, Some(40)]), 41);
    let m = manifest_with(&[4, 4, 2]);
    assert_eq!(members(&distinct_blobs(&m)), vec![id(2), id(4)]);
}

#[test]
fn releases_cover_sidecar_blobs_and_resolved_snapshot_blobs() {
    let blobs = set_of(&[1]);
    let snaps = set_of(&[10, 11]);
    let resolved = vec![Some(manifest_with(&[2])), None];
    let r = release_set(GcMode::Legacy, &blobs, &snaps, &resolved);
    assert_eq!(members(&r), vec![id(1), id(2)]);
    let r = release_set(GcMode::MarkSweepNoRefs, &blobs, &snaps, &resolved);
    assert!(r.is_empty());
    assert_eq!(
        retirement_receipt(3, false, true),
        RetirementReceipt { references_released: 3, mirror_removed: true }
    );
    assert_eq!(RetirementReceipt::default(), retirement_receipt(0, false, false));
}

#[test]
fn lease_reclaim_decisions() {
    assert!(lease_reclaimable(true, false, false));
    assert!(lease_reclaimable(false, true, false));
    assert!(lease_reclaimable(false, false, true));
    assert!(!lease_reclaimable(false, false, false));
    assert!(invalid_lease_reclaimable(at(5), 5_000_000_000));
    assert!(!invalid_lease_reclaimable(at(6), 5_000_000_000));
}

#[test]
fn cleanup_branch_comes_from_head_or_the_lease_id() {
    assert_eq!(cleanup_branch(Some("ref: refs/heads/feature/x\n"), "abc"), "feature/x");
    assert_eq!(cleanup_branch(Some("0123abcd\n"), "abc"), "scratch-abc");
    assert_eq!(cleanup_branch(None, "scratch-abc"), "scratch-abc");
    assert_eq!(cleanup_branch(None, "abc"), "scratch-abc");
}

#[test]
fn audit_reports_invalid_mirrors_and_disagreements_in_order() {
    let present = set_of(&[1, 2, 3]);
    let marked = set_of(&[1, 2, 9]);
    let refs_live = vec![true, false, true];
    let invalid = vec![("/m/x".to_string(), "bad header".to_string())];
    let lines = audit_lines(&invalid, &present, &refs_live, &marked);
    assert_eq!(
        lines,
        vec![
            "wt-gc-audit: invalid mirror /m/x (bad header)".to_string(),
            format!("wt-gc-audit: marked-only {}", id(2).to_string()),
            format!("wt-gc-audit: refcounted-only {}", id(3).to_string()),
        ]
    );
    assert!(audit_lines(&vec![], &present, &vec![true, true, false], &set_of(&[1, 2])).is_empty());
}

#[test]
fn reclaimer_remembers_dead_mirrors() {
    let mut r = StoreReclaimer::new();
    assert!(!r.is_dead_mirror("/store/mirrors/a"));
    r.note_dead_mirror("/store/mirrors/a".to_string());
    assert!(r.is_dead_mirror("/store/mirrors/a"));
    assert!(!r.is_dead_mirror("/store/mirrors/b"));
}

#[test]
fn sweep_summaries_carry_the_pass_counts() {
    let s = SweepSummary::from_legacy(4, 2, 99, vec!["x".into()], true);
    assert_eq!(s.mode, GcMode::Legacy);
    assert_eq!((s.examined_blobs, s.reclaimed_blobs, s.reclaimed_blob_bytes), (4, 2, 99));
    assert_eq!(s.audit_disagreements, vec!["x".to_string()]);
    assert!(s.dry_run);
    let swept = MarkSwept {
        examined: 5,
        reclaimed: 1,
        reclaimed_bytes: 7,
        mirrors_removed: 2,
        snapshot_dirs_removed: 3,
        snapshot_cap_evicted: 1,
        deferred_by_grace: false,
    };
    let s = SweepSummary::from_mark_sweep(GcMode::MarkSweep, swept, false);
    assert_eq!(s.mode, GcMode::MarkSweep);
    assert_eq!(s.snapshot_dirs_removed, 3);
    assert_eq!(s.mirrors_removed, 2);
    assert!(s.audit_disagreements.is_empty());
}

#[test]
fn referenced_snapshots_are_never_weighed_and_debris_goes_once_aged() {
    let mut referenced = IdSet::new();
    let held = ContentId([7u8; 32]);
    referenced.insert(held);
    let free = ContentId([8u8; 32]);
    assert!(matches!(snapshot_dir_fate(&held.to_string(), &referenced, true), SnapshotDirFate::Keep));
    assert!(matches!(snapshot_dir_fate(&free.to_string(), &referenced, true), SnapshotDirFate::Weigh(id) if id == free));
    assert!(matches!(snapshot_dir_fate(&free.to_string(), &referenced, false), SnapshotDirFate::Weigh(id) if id == free));
    assert!(matches!(snapshot_dir_fate("index.tsv", &referenced, true), SnapshotDirFate::Keep));
    assert!(matches!(snapshot_dir_fate("tmp", &referenced, true), SnapshotDirFate::Keep));
    assert!(matches!(snapshot_dir_fate("half-written.tmp", &referenced, true), SnapshotDirFate::Remove));
    assert!(matches!(snapshot_dir_fate("half-written.tmp", &referenced, false), SnapshotDirFate::Keep));
}

#[test]
fn missing_lru_stamp_falls_back_to_the_directory_mtime() {
    assert_eq!(SnapshotCandidate::new(Some(50), 10, 3, true), cand(50, 3, false));
    assert_eq!(SnapshotCandidate::new(None, 10, 3, false), cand(10, 3, true));
}

#[test]
fn young_snapshots_survive_the_tightest_cap_and_eviction_takes_the_oldest() {
    let c = vec![cand(100, 1, false), cand(400, 1, true), cand(300, 1, false), cand(200, 1, false)];
    let (order, verdicts) = plan_retention(&c, 1, None);
    assert_eq!(order, vec![1, 2, 3, 0]);
    assert_eq!(verdicts, vec![Retention::Keep, Retention::CapEvict, Retention::CapEvict, Retention::CapEvict]);
    let (order, verdicts) = plan_retention(&c, 2, None);
    assert_eq!(order, vec![1, 2, 3, 0]);
    assert_eq!(verdicts, vec![Retention::Keep, Retention::Keep, Retention::CapEvict, Retention::CapEvict]);
}

#[test]
fn dry_sweep_reports_what_a_real_sweep_reclaims_and_deletes_nothing() {
    let ids = vec![id(1), id(2), id(3)];
    let live = vec![false, true, false];
    let meta = vec![Some((at(10), 7)), Some((at(10), 9)), Some((at(10), 5))];
    let cutoff = 100_000_000_000i128;
    let (gone, n, bytes) = plan_sweep(&ids, &live, &meta, cutoff, false).expect("fits");
    assert_eq!(gone, vec![id(1), id(3)]);
    assert_eq!((n, bytes), (2, 12));
    let (gone, n, bytes) = plan_sweep(&ids, &live, &meta, cutoff, true).expect("fits");
    assert!(gone.is_empty());
    assert_eq!((n, bytes), (2, 12));
}

#[test]
fn reclaim_total_past_u64_is_refused() {
    let ids = vec![id(1), id(2)];
    let live = vec![false, false];
    let meta = vec![Some((at(10), u64::MAX)), Some((at(10), 1))];
    let cutoff = 100_000_000_000i128;
    assert!(plan_reclaim_checked(&ids, &live, &meta, cutoff).is_none());
    assert!(plan_sweep(&ids, &live, &meta, cutoff, true).is_none());
    let meta = vec![Some((at(10), u64::MAX - 1)), Some((at(10), 1))];
    assert_eq!(plan_reclaim_checked(&ids, &live, &meta, cutoff), Some((vec![id(1), id(2)], u64::MAX)));
}

#[test]
fn cap_evicts_least_recently_used_and_keeps_most_recent() {
    let c: Vec<SnapshotCandidate> = (1..=5).map(|i| cand(100 * i, 10, false)).collect();
    let (order, verdicts) = plan_retention(&c, 2, None);
    assert_eq!(order, vec![4, 3, 2, 1, 0]);
    assert_eq!(
        verdicts,
        vec![Retention::Keep, Retention::Keep, Retention::CapEvict, Retention::CapEvict, Retention::CapEvict]
    );
    assert_eq!(verdicts.iter().filter(|v| **v == Retention::CapEvict).count(), 3);
}

#[test]
fn referenced_snapshots_survive_any_cap() {
    // Referenced snapshots are never candidates; only the two
    // unreferenced ones are weighed, and a zero cap evicts both.
    let c = vec![cand(300, 10, false), cand(400, 10, false)];
    let (order, verdicts) = plan_retention(&c, 0, None);
    assert_eq!(order, vec![1, 0]);
    assert_eq!(verdicts, vec![Retention::CapEvict, Retention::CapEvict]);
}

#[test]
fn snapshots_inside_grace_are_never_capped_or_collected() {
    let c = vec![cand(100, 10, false), cand(200, 10, true), cand(300, 10, true)];
    let (order, verdicts) = plan_retention(&c, 0, None);
    assert_eq!(order, vec![2, 1, 0]);
    assert_eq!(verdicts, vec![Retention::Keep, Retention::Keep, Retention::CapEvict]);
}

#[test]
fn missing_lru_stamps_fall_back_to_publish_mtime_order() {
    let unstamped = SnapshotCandidate::new(None, 1000, 10, true);
    let stamped = SnapshotCandidate::new(Some(u64::MAX), 1000, 10, true);
    assert_eq!(unstamped.last_use, 1000);
    let (order, verdicts) = plan_retention(&vec![unstamped, stamped], 1, None);
    assert_eq!(order, vec![1, 0]);
    assert_eq!(verdicts, vec![Retention::Keep, Retention::CapEvict]);
}
