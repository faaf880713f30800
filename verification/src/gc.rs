//! Garbage-collection decisions: the store's collection mode, which
//! mirrors keep content alive, which blobs and snapshots a sweep may
//! reclaim, and what retiring a worktree releases.
//!
//! Three modes live in `<root>/gc-mode` (absent means legacy):
//!
//! - `legacy`: liveness comes from `refs/` refcounts only; mirrors are
//!   still written and every sweep audits marks against refcounts.
//! - `mark-sweep`: liveness comes from live-mirror marks plus the grace
//!   period; refcounts are maintained but ignored by the sweep.
//! - `mark-sweep-no-refs`: as above, and refcounts are no longer written.
//!
//! The filesystem walks, deletions and clocks belong to the caller,
//! which hands the facts it observed to the functions here and carries
//! out what they decide.

use vstd::prelude::*;

use crate::idset::IdSet;
use crate::lockfile::{trim_exec, trim_spec};
use crate::mirror::StoreMirror;
use crate::snapshot::{EntryView, Manifest};
use crate::stamp::{after_cutoff, is_after, Span, Timestamp};
use crate::text::chars_of;
use crate::ContentId;

verus! {

/// The store's collection mode, persisted as `<root>/gc-mode`.
#[derive(Debug, Clone, Copy, PartialEq, Eq, Structural)]
pub enum GcMode {
    /// Refcount-driven collection. Default.
    Legacy,
    /// Mirror-driven collection; refs maintained but ignored.
    MarkSweep,
    /// Mirror-driven collection; refs no longer written.
    MarkSweepNoRefs,
}

pub open spec fn kw_mark_sweep() -> Seq<char> {
    seq!['m', 'a', 'r', 'k', '-', 's', 'w', 'e', 'e', 'p']
}

pub open spec fn kw_mark_sweep_no_refs() -> Seq<char> {
    kw_mark_sweep() + seq!['-', 'n', 'o', '-', 'r', 'e', 'f', 's']
}

/// The name a mode is written under; legacy has none.
pub open spec fn gc_mode_text(m: GcMode) -> Seq<char> {
    match m {
        GcMode::Legacy => seq![],
        GcMode::MarkSweep => kw_mark_sweep(),
        GcMode::MarkSweepNoRefs => kw_mark_sweep_no_refs(),
    }
}

/// The mode a marker names once surrounding whitespace is trimmed.
pub open spec fn gc_mode_from_spec(text: Seq<char>) -> Option<GcMode> {
    let t = trim_spec(text);
    if t == kw_mark_sweep() {
        Some(GcMode::MarkSweep)
    } else if t == kw_mark_sweep_no_refs() {
        Some(GcMode::MarkSweepNoRefs)
    } else {
        None
    }
}

/// The mode a store runs in, given its marker file's text (`None` when
/// the file is absent or unreadable): legacy unless the marker names
/// another mode.
pub open spec fn gc_mode_of_marker(text: Option<Seq<char>>) -> GcMode {
    match text {
        Some(t) => match gc_mode_from_spec(t) {
            Some(m) => m,
            None => GcMode::Legacy,
        },
        None => GcMode::Legacy,
    }
}

/// What the marker file holds for a mode: its name and a newline, or no
/// file at all for legacy.
pub open spec fn gc_marker_spec(m: GcMode) -> Option<Seq<char>> {
    match m {
        GcMode::Legacy => None,
        _ => Some(gc_mode_text(m).push('\n')),
    }
}

fn chars_eq_seq(v: &Vec<char>, w: &Vec<char>) -> (b: bool)
    ensures
        b == (v@ == w@),
{
    crate::text::chars_eq(v, w)
}

fn kw_chars_mark_sweep() -> (r: Vec<char>)
    ensures
        r@ == kw_mark_sweep(),
{
    let r = vec!['m', 'a', 'r', 'k', '-', 's', 'w', 'e', 'e', 'p'];
    assert(r@ =~= kw_mark_sweep());
    r
}

fn kw_chars_mark_sweep_no_refs() -> (r: Vec<char>)
    ensures
        r@ == kw_mark_sweep_no_refs(),
{
    let r = vec![
        'm', 'a', 'r', 'k', '-', 's', 'w', 'e', 'e', 'p', '-', 'n', 'o', '-', 'r', 'e', 'f', 's',
    ];
    assert(r@ =~= kw_mark_sweep_no_refs());
    r
}

impl GcMode {
    /// Canonical name of the mark-and-sweep mode.
    pub const MARK_SWEEP: &'static str = "mark-sweep";
    /// Canonical name of the refs-free mark-and-sweep variant.
    pub const MARK_SWEEP_NO_REFS: &'static str = "mark-sweep-no-refs";

    /// The name this mode is written under (empty for legacy).
    pub fn text(self) -> (r: Vec<char>)
        ensures
            r@ == gc_mode_text(self),
    {
        match self {
            GcMode::Legacy => {
                let r: Vec<char> = Vec::new();
                assert(r@ =~= gc_mode_text(self));
                r
            },
            GcMode::MarkSweep => kw_chars_mark_sweep(),
            GcMode::MarkSweepNoRefs => kw_chars_mark_sweep_no_refs(),
        }
    }

    /// Parse a mode name, ignoring surrounding whitespace. Legacy has no
    /// name and is never returned.
    pub fn from_text(text: &str) -> (r: Option<GcMode>)
        ensures
            r == gc_mode_from_spec(text@),
    {
        let t = trim_exec(&chars_of(text), true);
        if chars_eq_seq(&t, &kw_chars_mark_sweep()) {
            Some(GcMode::MarkSweep)
        } else if chars_eq_seq(&t, &kw_chars_mark_sweep_no_refs()) {
            Some(GcMode::MarkSweepNoRefs)
        } else {
            None
        }
    }

    /// The mode recorded by a marker whose text was read (`None` when
    /// there is no readable marker): absent or unrecognized means legacy.
    pub fn from_marker(text: Option<&str>) -> (r: GcMode)
        ensures
            r == gc_mode_of_marker(
                match text {
                    Some(t) => Some(t@),
                    None => None,
                },
            ),
    {
        match text {
            Some(t) => match GcMode::from_text(t) {
                Some(m) => m,
                None => GcMode::Legacy,
            },
            None => GcMode::Legacy,
        }
    }

    /// What writing this mode leaves in the marker file: its name and a
    /// newline, or `None` for legacy, whose marker is removed.
    pub fn marker(self) -> (r: Option<String>)
        ensures
            match r {
                Some(s) => gc_marker_spec(self) == Some(s@),
                None => gc_marker_spec(self) is None,
            },
    {
        match self {
            GcMode::Legacy => None,
            _ => {
                let mut v = self.text();
                v.push('\n');
                Some(crate::text::string_of(&v))
            },
        }
    }
}

proof fn lemma_keywords_trimmed()
    ensures
        trim_spec(kw_mark_sweep()) == kw_mark_sweep(),
        trim_spec(kw_mark_sweep().push('\n')) == kw_mark_sweep(),
        trim_spec(kw_mark_sweep_no_refs().push('\n')) == kw_mark_sweep_no_refs(),
{
    crate::lockfile::lemma_trim_plain(kw_mark_sweep());
    crate::lockfile::lemma_trim_plain_nl(kw_mark_sweep());
    crate::lockfile::lemma_trim_plain_nl(kw_mark_sweep_no_refs());
}

/// Writing a mode and reading the marker back gives the same mode,
/// for every mode: legacy by the absence of a marker.
pub proof fn lemma_gc_mode_round_trip(m: GcMode)
    ensures
        gc_mode_of_marker(gc_marker_spec(m)) == m,
{
    lemma_keywords_trimmed();
    assert(kw_mark_sweep_no_refs() != kw_mark_sweep()) by {
        assert(kw_mark_sweep_no_refs().len() != kw_mark_sweep().len());
    }
}


// ---------------------------------------------------------------------------
// Policy and outcomes
// ---------------------------------------------------------------------------

/// Garbage collection and lease sweep policy.
#[derive(Debug, Clone, Copy, PartialEq, Eq, Structural)]
pub struct SweepPolicy {
    /// How long unreferenced objects and dead mirrors stay protected.
    pub grace: Span,
    /// Maximum number of unreferenced snapshots to retain past grace.
    pub snapshot_cap: usize,
    /// Maximum disk byte budget for unreferenced snapshots.
    pub max_snapshot_bytes: Option<u64>,
    /// Analyse without deleting anything.
    pub dry_run: bool,
}

/// Default snapshot retention cap.
pub const DEFAULT_SNAPSHOT_CAP: usize = 64;
/// Default grace period, in seconds (fifteen minutes).
pub const DEFAULT_GRACE_SECS: u64 = 900;

impl Default for SweepPolicy {
    fn default() -> (p: SweepPolicy)
        ensures
            p == (SweepPolicy {
                grace: Span { secs: DEFAULT_GRACE_SECS, nanos: 0 },
                snapshot_cap: DEFAULT_SNAPSHOT_CAP,
                max_snapshot_bytes: None,
                dry_run: false,
            }),
    {
        SweepPolicy {
            grace: Span { secs: DEFAULT_GRACE_SECS, nanos: 0 },
            snapshot_cap: DEFAULT_SNAPSHOT_CAP,
            max_snapshot_bytes: None,
            dry_run: false,
        }
    }
}

/// What one mark-and-sweep pass did.
#[derive(Debug, Clone, Copy, PartialEq, Eq, Structural)]
pub struct MarkSwept {
    /// Blob entries the pass looked at.
    pub examined: u64,
    /// Unmarked, aged-out blobs deleted.
    pub reclaimed: u64,
    /// Total bytes of unmarked, aged-out blobs deleted.
    pub reclaimed_bytes: u64,
    /// Stale mirrors removed.
    pub mirrors_removed: u64,
    /// Snapshot directories (including temp debris) removed, cap
    /// evictions included.
    pub snapshot_dirs_removed: u64,
    /// Of those, how many went because of the retention budget.
    pub snapshot_cap_evicted: u64,
    /// A malformed mirror inside the grace window deferred all deletion.
    pub deferred_by_grace: bool,
}

/// Summary outcome of a full reclamation sweep pass.
#[derive(Debug, Clone, PartialEq, Eq)]
pub struct SweepSummary {
    /// Collection mode during the sweep.
    pub mode: GcMode,
    /// Total blob objects examined.
    pub examined_blobs: u64,
    /// Unreferenced, aged-out blobs deleted (or that would be).
    pub reclaimed_blobs: u64,
    /// Their total bytes.
    pub reclaimed_blob_bytes: u64,
    /// Stale or dead mirrors removed.
    pub mirrors_removed: u64,
    /// Snapshot directories (including temp debris) removed.
    pub snapshot_dirs_removed: u64,
    /// Snapshots evicted to satisfy the retention budget.
    pub snapshot_cap_evicted: u64,
    /// Deletion was deferred by young malformed mirrors.
    pub deferred_by_grace: bool,
    /// Lease files examined.
    pub leases_examined: usize,
    /// Dead or expired leases reclaimed.
    pub leases_reclaimed: usize,
    /// Estimated bytes of scratch worktrees reclaimed.
    pub lease_bytes_reclaimed: u64,
    /// Audit disagreements between marks and refcounts.
    pub audit_disagreements: Vec<String>,
    /// Whether this sweep was a dry run.
    pub dry_run: bool,
}

impl SweepSummary {
    /// The summary of a legacy (refcount-driven) sweep: blob counts from
    /// the sweep, the audit lines beside it, no mirror or snapshot work,
    /// and lease fields left for the caller.
    pub fn from_legacy(
        examined: u64,
        reclaimed: u64,
        reclaimed_bytes: u64,
        audit_disagreements: Vec<String>,
        dry_run: bool,
    ) -> (s: SweepSummary)
        ensures
            s.mode == GcMode::Legacy,
            s.examined_blobs == examined,
            s.reclaimed_blobs == reclaimed,
            s.reclaimed_blob_bytes == reclaimed_bytes,
            s.mirrors_removed == 0,
            s.snapshot_dirs_removed == 0,
            s.snapshot_cap_evicted == 0,
            !s.deferred_by_grace,
            s.leases_examined == 0,
            s.leases_reclaimed == 0,
            s.lease_bytes_reclaimed == 0,
            s.audit_disagreements@ == audit_disagreements@,
            s.dry_run == dry_run,
    {
        SweepSummary {
            mode: GcMode::Legacy,
            examined_blobs: examined,
            reclaimed_blobs: reclaimed,
            reclaimed_blob_bytes: reclaimed_bytes,
            mirrors_removed: 0,
            snapshot_dirs_removed: 0,
            snapshot_cap_evicted: 0,
            deferred_by_grace: false,
            leases_examined: 0,
            leases_reclaimed: 0,
            lease_bytes_reclaimed: 0,
            audit_disagreements,
            dry_run,
        }
    }

    /// The summary of a mirror-driven sweep in `mode`: every count from
    /// the pass, no audit, lease fields left for the caller.
    pub fn from_mark_sweep(mode: GcMode, swept: MarkSwept, dry_run: bool) -> (s: SweepSummary)
        ensures
            s.mode == mode,
            s.examined_blobs == swept.examined,
            s.reclaimed_blobs == swept.reclaimed,
            s.reclaimed_blob_bytes == swept.reclaimed_bytes,
            s.mirrors_removed == swept.mirrors_removed,
            s.snapshot_dirs_removed == swept.snapshot_dirs_removed,
            s.snapshot_cap_evicted == swept.snapshot_cap_evicted,
            s.deferred_by_grace == swept.deferred_by_grace,
            s.leases_examined == 0,
            s.leases_reclaimed == 0,
            s.lease_bytes_reclaimed == 0,
            s.audit_disagreements@.len() == 0,
            s.dry_run == dry_run,
    {
        SweepSummary {
            mode,
            examined_blobs: swept.examined,
            reclaimed_blobs: swept.reclaimed,
            reclaimed_blob_bytes: swept.reclaimed_bytes,
            mirrors_removed: swept.mirrors_removed,
            snapshot_dirs_removed: swept.snapshot_dirs_removed,
            snapshot_cap_evicted: swept.snapshot_cap_evicted,
            deferred_by_grace: swept.deferred_by_grace,
            leases_examined: 0,
            leases_reclaimed: 0,
            lease_bytes_reclaimed: 0,
            audit_disagreements: Vec::new(),
            dry_run,
        }
    }
}

/// Summary receipt returned when a worktree is retired.
#[derive(Debug, Clone, Copy, PartialEq, Eq, Structural)]
pub struct RetirementReceipt {
    /// Count of distinct blob references decremented.
    pub references_released: usize,
    /// Whether a store mirror was removed.
    pub mirror_removed: bool,
}

impl Default for RetirementReceipt {
    fn default() -> (r: RetirementReceipt)
        ensures
            r == (RetirementReceipt { references_released: 0, mirror_removed: false }),
    {
        RetirementReceipt { references_released: 0, mirror_removed: false }
    }
}

/// Filesystem work the caller must perform after the store has
/// unclaimed a lease.
#[derive(Debug, Clone, PartialEq, Eq)]
pub struct PendingCleanup {
    /// Worktree directory to remove.
    pub worktree: String,
    /// Administrative git dir to remove.
    pub gitdir: String,
    /// Branch to delete.
    pub branch: String,
}

// ---------------------------------------------------------------------------
// Marks
// ---------------------------------------------------------------------------

/// What the caller observed about one mirror file.
#[derive(Debug, Clone, Copy, PartialEq, Eq, Structural)]
pub struct MirrorFacts {
    /// The mirror is on the list of mirrors already known dead.
    pub ignored: bool,
    /// The mirror file was modified after the grace cutoff.
    pub young: bool,
    /// The recorded worktree path exists and is a directory.
    pub worktree_is_dir: bool,
    /// The recorded git dir exists.
    pub gitdir_exists: bool,
    /// The git dir holds the hydration sidecar.
    pub sidecar_exists: bool,
}

/// What becomes of one mirror in the mark phase.
#[derive(Debug, Clone, Copy, PartialEq, Eq, Structural)]
pub enum MirrorFate {
    /// Known dead already; counted dead, marks nothing.
    Ignored,
    /// Failed to parse; kept on disk for diagnosis.
    Invalid,
    /// Root validation passed; its records are marked.
    Live,
    /// Root validation failed. Inside the grace window it still marks;
    /// with its worktree gone and aged out, the mirror file goes.
    Dead { marks: bool, remove: bool },
}

/// A mirror is live when its worktree is a directory, its git dir
/// exists, and either the sidecar survives or the mirror is young.
pub open spec fn mirror_fate(f: MirrorFacts, parsed: bool) -> MirrorFate {
    if f.ignored {
        MirrorFate::Ignored
    } else if !parsed {
        MirrorFate::Invalid
    } else if f.worktree_is_dir && f.gitdir_exists && ((f.gitdir_exists && f.sidecar_exists)
        || f.young) {
        MirrorFate::Live
    } else {
        MirrorFate::Dead { marks: f.young, remove: !f.worktree_is_dir && !f.young }
    }
}

/// [`mirror_fate`].
pub fn mirror_fate_of(f: MirrorFacts, parsed: bool) -> (r: MirrorFate)
    ensures
        r == mirror_fate(f, parsed),
{
    if f.ignored {
        MirrorFate::Ignored
    } else if !parsed {
        MirrorFate::Invalid
    } else {
        let sidecar_alive = f.gitdir_exists && f.sidecar_exists;
        if f.worktree_is_dir && f.gitdir_exists && (sidecar_alive || f.young) {
            MirrorFate::Live
        } else {
            MirrorFate::Dead { marks: f.young, remove: !f.worktree_is_dir && !f.young }
        }
    }
}

/// The blobs a manifest's entries name.
pub open spec fn manifest_blobs(es: Seq<EntryView>) -> Set<Seq<u8>>
    decreases es.len(),
{
    if es.len() == 0 {
        Set::empty()
    } else {
        let rest = manifest_blobs(es.drop_last());
        match es.last().blob {
            Some(b) => rest.insert(b),
            None => rest,
        }
    }
}

/// A blob is among those a manifest names exactly when some entry of
/// the manifest refers to it.
pub proof fn lemma_manifest_blobs_members(es: Seq<EntryView>, b: Seq<u8>)
    ensures
        manifest_blobs(es).contains(b) <==> exists|i: int| 0 <= i < es.len() && (#[trigger] es[i]).blob
            == Some(b),
    decreases es.len(),
{
    if es.len() > 0 {
        let init = es.drop_last();
        lemma_manifest_blobs_members(init, b);
        if manifest_blobs(es).contains(b) {
            if es.last().blob == Some(b) {
                assert(es[es.len() - 1].blob == Some(b));
            } else {
                let i = choose|i: int| 0 <= i < init.len() && (#[trigger] init[i]).blob == Some(b);
                assert(es[i] == init[i]);
            }
        }
        if exists|i: int| 0 <= i < es.len() && (#[trigger] es[i]).blob == Some(b) {
            let i = choose|i: int| 0 <= i < es.len() && (#[trigger] es[i]).blob == Some(b);
            if i < es.len() - 1 {
                assert(init[i] == es[i]);
            }
        }
    }
}

pub open spec fn opt_manifests_view(rs: Seq<Option<Manifest>>) -> Seq<Option<Seq<EntryView>>> {
    rs.map_values(
        |o: Option<Manifest>|
            match o {
                Some(m) => Some(m@.entries),
                None => None,
            },
    )
}

/// The blobs named by every resolved snapshot.
pub open spec fn resolved_blobs(rs: Seq<Option<Seq<EntryView>>>) -> Set<Seq<u8>>
    decreases rs.len(),
{
    if rs.len() == 0 {
        Set::empty()
    } else {
        let rest = resolved_blobs(rs.drop_last());
        match rs.last() {
            Some(es) => rest.union(manifest_blobs(es)),
            None => rest,
        }
    }
}

/// The snapshot ids whose manifests resolved.
pub open spec fn resolved_ids(ids: Seq<Seq<u8>>, rs: Seq<Option<Seq<EntryView>>>) -> Set<Seq<u8>>
    decreases rs.len(),
{
    if rs.len() == 0 || ids.len() == 0 {
        Set::empty()
    } else {
        let rest = resolved_ids(ids.drop_last(), rs.drop_last());
        match rs.last() {
            Some(_) => rest.insert(ids.last()),
            None => rest,
        }
    }
}

/// A blob is marked through resolved snapshots exactly when some
/// resolved snapshot has an entry that refers to it.
pub proof fn lemma_resolved_blobs_members(rs: Seq<Option<Seq<EntryView>>>, b: Seq<u8>)
    ensures
        resolved_blobs(rs).contains(b) <==> exists|i: int, j: int|
            0 <= i < rs.len() && (#[trigger] rs[i]) is Some && 0 <= j < rs[i]->0.len() && (
            #[trigger] rs[i]->0[j]).blob == Some(b),
    decreases rs.len(),
{
    if rs.len() > 0 {
        let init = rs.drop_last();
        lemma_resolved_blobs_members(init, b);
        let n = rs.len() - 1;
        match rs.last() {
            Some(es) => {
                lemma_manifest_blobs_members(es, b);
            },
            None => {},
        }
        if resolved_blobs(rs).contains(b) {
            if resolved_blobs(init).contains(b) {
                let (i, j) = choose|i: int, j: int|
                    0 <= i < init.len() && (#[trigger] init[i]) is Some && 0 <= j < init[i]->0.len() && (
                    #[trigger] init[i]->0[j]).blob == Some(b);
                assert(rs[i] == init[i]);
            } else {
                let es = rs.last()->0;
                let j = choose|j: int| 0 <= j < es.len() && (#[trigger] es[j]).blob == Some(b);
                assert(rs[n] == rs.last());
                assert(rs[n]->0[j].blob == Some(b));
            }
        }
        if exists|i: int, j: int|
            0 <= i < rs.len() && (#[trigger] rs[i]) is Some && 0 <= j < rs[i]->0.len() && (
            #[trigger] rs[i]->0[j]).blob == Some(b) {
            let (i, j) = choose|i: int, j: int|
                0 <= i < rs.len() && (#[trigger] rs[i]) is Some && 0 <= j < rs[i]->0.len() && (
                #[trigger] rs[i]->0[j]).blob == Some(b);
            if i < n {
                assert(init[i] == rs[i]);
                assert(init[i]->0[j].blob == Some(b));
            } else {
                assert(rs.last()->0[j].blob == Some(b));
            }
        }
    }
}

/// A snapshot id is referenced exactly when it stands at a position
/// whose manifest resolved.
pub proof fn lemma_resolved_ids_members(ids: Seq<Seq<u8>>, rs: Seq<Option<Seq<EntryView>>>, h: Seq<u8>)
    requires
        ids.len() == rs.len(),
    ensures
        resolved_ids(ids, rs).contains(h) <==> exists|i: int|
            0 <= i < rs.len() && (#[trigger] rs[i]) is Some && ids[i] == h,
    decreases rs.len(),
{
    if rs.len() > 0 {
        let n = rs.len() - 1;
        lemma_resolved_ids_members(ids.drop_last(), rs.drop_last(), h);
        if resolved_ids(ids, rs).contains(h) {
            if resolved_ids(ids.drop_last(), rs.drop_last()).contains(h) {
                let i = choose|i: int| 0 <= i < n && (#[trigger] rs.drop_last()[i]) is Some
                    && ids.drop_last()[i] == h;
                assert(rs[i] == rs.drop_last()[i]);
            } else {
                assert(rs[n] is Some && ids[n] == h);
            }
        }
        if exists|i: int| 0 <= i < rs.len() && (#[trigger] rs[i]) is Some && ids[i] == h {
            let i = choose|i: int| 0 <= i < rs.len() && (#[trigger] rs[i]) is Some && ids[i] == h;
            if i < n {
                assert(rs.drop_last()[i] == rs[i]);
                assert(ids.drop_last()[i] == ids[i]);
            }
        }
    }
}

/// How many snapshots did not resolve.
pub open spec fn unresolved_count(rs: Seq<Option<Seq<EntryView>>>) -> nat
    decreases rs.len(),
{
    if rs.len() == 0 {
        0
    } else {
        unresolved_count(rs.drop_last()) + if rs.last() is None { 1nat } else { 0nat }
    }
}

proof fn lemma_unresolved_bound(rs: Seq<Option<Seq<EntryView>>>)
    ensures
        unresolved_count(rs) <= rs.len(),
    decreases rs.len(),
{
    if rs.len() > 0 {
        lemma_unresolved_bound(rs.drop_last());
    }
}

/// Mark every blob a manifest names.
fn mark_manifest(marked: &mut IdSet, manifest: &Manifest)
    ensures
        final(marked)@ == old(marked)@.union(manifest_blobs(manifest@.entries)),
{
    let ghost before = marked@;
    let ghost es = manifest@.entries;
    let mut j: usize = 0;
    assert(es.take(0) =~= Seq::<EntryView>::empty());
    assert(marked@ =~= before.union(manifest_blobs(es.take(0))));
    while j < manifest.entries.len()
        invariant
            j <= es.len(),
            es == manifest@.entries,
            marked@ == before.union(manifest_blobs(es.take(j as int))),
        decreases es.len() - j,
    {
        assert(es.take(j + 1).drop_last() =~= es.take(j as int));
        assert(es[j as int] == manifest.entries[j as int]@);
        match manifest.entries[j].blob {
            Some(b) => {
                marked.insert(b);
            },
            None => {},
        }
        assert(marked@ =~= before.union(manifest_blobs(es.take(j + 1))));
        j = j + 1;
    }
    assert(es.take(j as int) =~= es);
}

/// Marks plus everything observed while computing them.
#[derive(Debug)]
pub struct MarkReport {
    /// Content marked live through mirrors.
    pub marked: IdSet,
    /// Mirrors whose marks were all applied.
    pub live_mirrors: usize,
    /// Mirrors skipped as dead or expired.
    pub dead_mirrors: usize,
    /// (path, reason) for mirrors that failed to parse.
    pub invalid: Vec<(String, String)>,
    /// How many of those are younger than the grace window.
    pub invalid_young: usize,
    /// Snapshot records that resolved to a published manifest.
    pub referenced_snapshots: IdSet,
    /// Snapshot records pointing at missing or incomplete manifests.
    pub unresolved_snapshots: usize,
    /// Mirrors to delete: worktree gone and aged past the grace period.
    pub stale_mirrors_removed: Vec<String>,
}

impl MarkReport {
    /// A report before any mirror was seen.
    pub fn new() -> (r: MarkReport)
        ensures
            r.marked@ == Set::<Seq<u8>>::empty(),
            r.referenced_snapshots@ == Set::<Seq<u8>>::empty(),
            r.live_mirrors == 0,
            r.dead_mirrors == 0,
            r.invalid@.len() == 0,
            r.invalid_young == 0,
            r.unresolved_snapshots == 0,
            r.stale_mirrors_removed@.len() == 0,
    {
        let r = MarkReport {
            marked: IdSet::new(),
            live_mirrors: 0,
            dead_mirrors: 0,
            invalid: Vec::new(),
            invalid_young: 0,
            referenced_snapshots: IdSet::new(),
            unresolved_snapshots: 0,
            stale_mirrors_removed: Vec::new(),
        };
        assert(r.marked@ =~= Set::<Seq<u8>>::empty());
        assert(r.referenced_snapshots@ =~= Set::<Seq<u8>>::empty());
        r
    }

    /// Apply one parsed mirror's records: its file blobs, and for each
    /// snapshot record (`resolved[i]` is what `m.snapshots`' `i`-th id
    /// resolved to) the snapshot itself and every blob its manifest
    /// names; a snapshot that did not resolve marks nothing.
    pub fn mark_through(&mut self, m: &StoreMirror, resolved: &Vec<Option<Manifest>>)
        requires
            resolved@.len() == m.snapshots.items().len(),
            old(self).unresolved_snapshots + resolved@.len() <= usize::MAX,
        ensures
            final(self).marked@ == old(self).marked@.union(m.files@).union(
                resolved_blobs(opt_manifests_view(resolved@)),
            ),
            final(self).referenced_snapshots@ == old(self).referenced_snapshots@.union(
                resolved_ids(m.snapshots.items(), opt_manifests_view(resolved@)),
            ),
            final(self).unresolved_snapshots == old(self).unresolved_snapshots + unresolved_count(
                opt_manifests_view(resolved@),
            ),
            final(self).live_mirrors == old(self).live_mirrors,
            final(self).dead_mirrors == old(self).dead_mirrors,
            final(self).invalid@ == old(self).invalid@,
            final(self).invalid_young == old(self).invalid_young,
            final(self).stale_mirrors_removed@ == old(self).stale_mirrors_removed@,
    {
        let ghost rv = opt_manifests_view(resolved@);
        let ghost ids = m.snapshots.items();
        self.marked.insert_all(&m.files);
        let ghost base = self.marked@;
        let mut i: usize = 0;
        assert(rv.take(0) =~= Seq::<Option<Seq<EntryView>>>::empty());
        assert(ids.take(0) =~= Seq::<Seq<u8>>::empty());
        assert(self.marked@ =~= base.union(resolved_blobs(rv.take(0))));
        assert(self.referenced_snapshots@ =~= old(self).referenced_snapshots@.union(
            resolved_ids(ids.take(0), rv.take(0)),
        ));
        while i < resolved.len()
            invariant
                i <= resolved@.len(),
                rv == opt_manifests_view(resolved@),
                ids == m.snapshots.items(),
                resolved@.len() == ids.len(),
                base == old(self).marked@.union(m.files@),
                self.marked@ == base.union(resolved_blobs(rv.take(i as int))),
                self.referenced_snapshots@ == old(self).referenced_snapshots@.union(
                    resolved_ids(ids.take(i as int), rv.take(i as int)),
                ),
                self.unresolved_snapshots == old(self).unresolved_snapshots + unresolved_count(
                    rv.take(i as int),
                ),
                old(self).unresolved_snapshots + resolved@.len() <= usize::MAX,
                self.live_mirrors == old(self).live_mirrors,
                self.dead_mirrors == old(self).dead_mirrors,
                self.invalid@ == old(self).invalid@,
                self.invalid_young == old(self).invalid_young,
                self.stale_mirrors_removed@ == old(self).stale_mirrors_removed@,
            decreases resolved@.len() - i,
        {
            proof {
                assert(rv.take(i + 1).drop_last() =~= rv.take(i as int));
                assert(ids.take(i + 1).drop_last() =~= ids.take(i as int));
                assert(rv.take(i + 1).last() == rv[i as int]);
                assert(ids.take(i + 1).last() == ids[i as int]);
                lemma_unresolved_bound(rv.take(i as int));
            }
            match &resolved[i] {
                Some(manifest) => {
                    let sid = m.snapshots.get(i);
                    self.referenced_snapshots.insert(sid);
                    mark_manifest(&mut self.marked, manifest);
                    let ghost es = manifest@.entries;
                    assert(rv[i as int] == Some(es));
                    assert(self.marked@ =~= base.union(resolved_blobs(rv.take(i + 1))));
                    assert(self.referenced_snapshots@ =~= old(self).referenced_snapshots@.union(
                        resolved_ids(ids.take(i + 1), rv.take(i + 1)),
                    ));
                },
                None => {
                    self.unresolved_snapshots = self.unresolved_snapshots + 1;
                    assert(rv[i as int] is None);
                    assert(rv.take(i + 1).last() is None);
                    assert(unresolved_count(rv.take(i + 1)) == unresolved_count(rv.take(i as int))
                        + 1);
                    assert(resolved_ids(ids.take(i + 1), rv.take(i + 1)) == resolved_ids(
                        ids.take(i as int),
                        rv.take(i as int),
                    ));
                    assert(self.marked@ =~= base.union(resolved_blobs(rv.take(i + 1))));
                    assert(self.referenced_snapshots@ =~= old(self).referenced_snapshots@.union(
                        resolved_ids(ids.take(i + 1), rv.take(i + 1)),
                    ));
                },
            }
            i = i + 1;
        }
        assert(rv.take(i as int) =~= rv);
        assert(ids.take(i as int) =~= ids);
        assert(self.marked@ =~= old(self).marked@.union(m.files@).union(resolved_blobs(rv)));
    }
}


/// `b` is `a` with one mirror's records marked through.
pub open spec fn marks_applied(a: MarkReport, b: MarkReport, m: StoreMirror, rs: Seq<Option<Manifest>>) -> bool {
    &&& b.marked@ == a.marked@.union(m.files@).union(resolved_blobs(opt_manifests_view(rs)))
    &&& b.referenced_snapshots@ == a.referenced_snapshots@.union(
        resolved_ids(m.snapshots.items(), opt_manifests_view(rs)),
    )
    &&& b.unresolved_snapshots == a.unresolved_snapshots + unresolved_count(opt_manifests_view(rs))
}

/// `b` marks exactly what `a` does.
pub open spec fn marks_kept(a: MarkReport, b: MarkReport) -> bool {
    &&& b.marked@ == a.marked@
    &&& b.referenced_snapshots@ == a.referenced_snapshots@
    &&& b.unresolved_snapshots == a.unresolved_snapshots
}

impl MarkReport {
    /// Account for one mirror file at `path`, as the mark phase does:
    /// `facts` is what the caller observed on disk, `mirror` the parse
    /// of its text, and `resolved` what each of its snapshot records
    /// resolved to. Returns the mirror's fate; for a removable dead
    /// mirror the path is recorded, and the caller deletes the file
    /// unless it is a dry run.
    pub fn observe(
        &mut self,
        path: String,
        facts: MirrorFacts,
        mirror: Result<StoreMirror, String>,
        resolved: &Vec<Option<Manifest>>,
    ) -> (fate: MirrorFate)
        requires
            match mirror {
                Ok(m) => resolved@.len() == m.snapshots.items().len(),
                Err(_) => true,
            },
            old(self).live_mirrors < usize::MAX,
            old(self).dead_mirrors < usize::MAX,
            old(self).invalid_young < usize::MAX,
            old(self).unresolved_snapshots + resolved@.len() <= usize::MAX,
        ensures
            fate == mirror_fate(facts, mirror is Ok),
            final(self).live_mirrors == old(self).live_mirrors + if fate is Live { 1int } else { 0int },
            final(self).dead_mirrors == old(self).dead_mirrors + if fate is Ignored || fate is Dead {
                1int
            } else {
                0int
            },
            final(self).invalid@ == (match mirror {
                Err(reason) => if fate is Invalid {
                    old(self).invalid@.push((path, reason))
                } else {
                    old(self).invalid@
                },
                Ok(_) => old(self).invalid@,
            }),
            final(self).invalid_young == old(self).invalid_young + if fate is Invalid && facts.young {
                1int
            } else {
                0int
            },
            final(self).stale_mirrors_removed@ == if fate matches MirrorFate::Dead { remove: true, .. } {
                old(self).stale_mirrors_removed@.push(path)
            } else {
                old(self).stale_mirrors_removed@
            },
            match mirror {
                Ok(m) => if fate is Live || fate matches MirrorFate::Dead { marks: true, .. } {
                    marks_applied(*old(self), *final(self), m, resolved@)
                } else {
                    marks_kept(*old(self), *final(self))
                },
                Err(_) => marks_kept(*old(self), *final(self)),
            },
    {
        let fate = mirror_fate_of(facts, mirror.is_ok());
        match mirror {
            Err(reason) => {
                if facts.ignored {
                    self.dead_mirrors = self.dead_mirrors + 1;
                } else {
                    self.invalid.push((path, reason));
                    if facts.young {
                        self.invalid_young = self.invalid_young + 1;
                    }
                }
            },
            Ok(m) => {
                match fate {
                    MirrorFate::Ignored => {
                        self.dead_mirrors = self.dead_mirrors + 1;
                    },
                    MirrorFate::Live => {
                        self.live_mirrors = self.live_mirrors + 1;
                        self.mark_through(&m, resolved);
                    },
                    MirrorFate::Dead { marks, remove } => {
                        self.dead_mirrors = self.dead_mirrors + 1;
                        if marks {
                            self.mark_through(&m, resolved);
                        }
                        if remove {
                            self.stale_mirrors_removed.push(path);
                        }
                    },
                    MirrorFate::Invalid => {},
                }
            },
        }
        fate
    }
}

// ---------------------------------------------------------------------------
// Blob sweeps
// ---------------------------------------------------------------------------

/// Whether a blob may be reclaimed: it is not live, its metadata could
/// still be read, and it was last modified no later than the cutoff.
pub open spec fn reclaimable(live: bool, meta: Option<(Timestamp, u64)>, cutoff: int) -> bool {
    match meta {
        Some((modified, _)) => !live && !after_cutoff(modified, cutoff),
        None => false,
    }
}

/// The size in a blob's metadata (0 when there is none).
pub open spec fn meta_size(meta: Option<(Timestamp, u64)>) -> int {
    match meta {
        Some((_, size)) => size as int,
        None => 0,
    }
}

/// The ids a sweep reclaims, in order, and their total size.
pub open spec fn reclaim_plan(
    ids: Seq<Seq<u8>>,
    live: Seq<bool>,
    meta: Seq<Option<(Timestamp, u64)>>,
    cutoff: int,
) -> (Seq<Seq<u8>>, int)
    decreases ids.len(),
{
    if ids.len() == 0 || live.len() == 0 || meta.len() == 0 {
        (seq![], 0)
    } else {
        let rest = reclaim_plan(ids.drop_last(), live.drop_last(), meta.drop_last(), cutoff);
        if reclaimable(live.last(), meta.last(), cutoff) {
            (rest.0.push(ids.last()), rest.1 + meta_size(meta.last()))
        } else {
            rest
        }
    }
}

/// A sweep reclaims exactly the reclaimable blobs: never a live
/// (referenced or marked) blob, never one modified inside the grace
/// window, never one whose metadata could not be read; and every blob
/// that is none of these goes.
pub proof fn lemma_sweep_reclaims_exactly_the_dead(
    ids: Seq<Seq<u8>>,
    live: Seq<bool>,
    meta: Seq<Option<(Timestamp, u64)>>,
    cutoff: int,
)
    requires
        ids.len() == live.len() == meta.len(),
    ensures
        forall|x: Seq<u8>|
            #[trigger] reclaim_plan(ids, live, meta, cutoff).0.contains(x) ==> exists|i: int|
                0 <= i < ids.len() && ids[i] == x && reclaimable(live[i], meta[i], cutoff),
        forall|i: int|
            0 <= i < ids.len() && reclaimable(live[i], meta[i], cutoff) ==> reclaim_plan(
                ids,
                live,
                meta,
                cutoff,
            ).0.contains(#[trigger] ids[i]),
    decreases ids.len(),
{
    if ids.len() > 0 {
        let (ri, rl, rm) = (ids.drop_last(), live.drop_last(), meta.drop_last());
        lemma_sweep_reclaims_exactly_the_dead(ri, rl, rm, cutoff);
        let rest = reclaim_plan(ri, rl, rm, cutoff);
        let all = reclaim_plan(ids, live, meta, cutoff);
        let n = ids.len() - 1;
        assert forall|x: Seq<u8>| #[trigger] all.0.contains(x) implies exists|i: int|
            0 <= i < ids.len() && ids[i] == x && reclaimable(live[i], meta[i], cutoff) by {
            if rest.0.contains(x) {
                let i = choose|i: int| 0 <= i < ri.len() && ri[i] == x && reclaimable(rl[i], rm[i], cutoff);
                assert(ids[i] == ri[i] && live[i] == rl[i] && meta[i] == rm[i]);
            } else {
                let j = choose|j: int| 0 <= j < all.0.len() && all.0[j] == x;
                assert(reclaimable(live.last(), meta.last(), cutoff));
                assert(all.0 == rest.0.push(ids.last()));
                if j < rest.0.len() {
                    assert(rest.0[j] == x);
                }
                assert(ids[n] == x);
            }
        }
        assert forall|i: int| 0 <= i < ids.len() && reclaimable(live[i], meta[i], cutoff) implies all.0.contains(
            #[trigger] ids[i],
        ) by {
            if i < n {
                assert(ids[i] == ri[i] && live[i] == rl[i] && meta[i] == rm[i]);
                assert(rest.0.contains(ri[i]));
                let j = choose|j: int| 0 <= j < rest.0.len() && rest.0[j] == ri[i];
                if reclaimable(live.last(), meta.last(), cutoff) {
                    assert(all.0[j] == rest.0[j]);
                }
            } else {
                assert(all.0 == rest.0.push(ids.last()));
                assert(all.0[rest.0.len() as int] == ids[i]);
            }
        }
    }
}

proof fn lemma_reclaim_plan_prefix(
    ids: Seq<Seq<u8>>,
    live: Seq<bool>,
    meta: Seq<Option<(Timestamp, u64)>>,
    cutoff: int,
    i: int,
)
    requires
        ids.len() == live.len() == meta.len(),
        0 <= i < ids.len(),
    ensures
        reclaim_plan(ids.take(i + 1), live.take(i + 1), meta.take(i + 1), cutoff) == (if reclaimable(
            live[i],
            meta[i],
            cutoff,
        ) {
            (
                reclaim_plan(ids.take(i), live.take(i), meta.take(i), cutoff).0.push(ids[i]),
                reclaim_plan(ids.take(i), live.take(i), meta.take(i), cutoff).1 + meta_size(meta[i]),
            )
        } else {
            reclaim_plan(ids.take(i), live.take(i), meta.take(i), cutoff)
        }),
{
    assert(ids.take(i + 1).drop_last() =~= ids.take(i));
    assert(live.take(i + 1).drop_last() =~= live.take(i));
    assert(meta.take(i + 1).drop_last() =~= meta.take(i));
}

proof fn lemma_reclaim_total_mono(
    ids: Seq<Seq<u8>>,
    live: Seq<bool>,
    meta: Seq<Option<(Timestamp, u64)>>,
    cutoff: int,
    i: int,
)
    requires
        ids.len() == live.len() == meta.len(),
        0 <= i <= ids.len(),
    ensures
        0 <= reclaim_plan(ids.take(i), live.take(i), meta.take(i), cutoff).1 <= reclaim_plan(
            ids,
            live,
            meta,
            cutoff,
        ).1,
    decreases ids.len() - i,
{
    if i < ids.len() {
        lemma_reclaim_plan_prefix(ids, live, meta, cutoff, i);
        lemma_reclaim_total_mono(ids, live, meta, cutoff, i + 1);
        lemma_reclaim_nonneg(ids.take(i), live.take(i), meta.take(i), cutoff);
    } else {
        assert(ids.take(i) =~= ids);
        assert(live.take(i) =~= live);
        assert(meta.take(i) =~= meta);
        lemma_reclaim_nonneg(ids, live, meta, cutoff);
    }
}

proof fn lemma_reclaim_nonneg(
    ids: Seq<Seq<u8>>,
    live: Seq<bool>,
    meta: Seq<Option<(Timestamp, u64)>>,
    cutoff: int,
)
    ensures
        reclaim_plan(ids, live, meta, cutoff).1 >= 0,
    decreases ids.len(),
{
    if ids.len() > 0 && live.len() > 0 && meta.len() > 0 {
        lemma_reclaim_nonneg(ids.drop_last(), live.drop_last(), meta.drop_last(), cutoff);
    }
}

/// The sweep over stored blobs, in id order: `live[i]` says whether
/// `ids[i]` is kept alive (marked, or referenced), `meta[i]` is its
/// modification time and size as read (`None` when it vanished). The
/// ids to delete come back in order, with their total size.
pub fn plan_reclaim(
    ids: &Vec<ContentId>,
    live: &Vec<bool>,
    meta: &Vec<Option<(Timestamp, u64)>>,
    cutoff: i128,
) -> (r: (Vec<ContentId>, u64))
    requires
        ids@.len() == live@.len() == meta@.len(),
        reclaim_plan(crate::idset::id_bytes(ids@), live@, meta@, cutoff as int).1 <= u64::MAX,
    ensures
        crate::idset::id_bytes(r.0@) == reclaim_plan(
            crate::idset::id_bytes(ids@),
            live@,
            meta@,
            cutoff as int,
        ).0,
        r.1 == reclaim_plan(crate::idset::id_bytes(ids@), live@, meta@, cutoff as int).1,
{
    let ghost bs = crate::idset::id_bytes(ids@);
    let mut out: Vec<ContentId> = Vec::new();
    let mut bytes: u64 = 0;
    let mut i: usize = 0;
    assert(bs.take(0) =~= Seq::<Seq<u8>>::empty());
    while i < ids.len()
        invariant
            i <= ids@.len(),
            bs == crate::idset::id_bytes(ids@),
            ids@.len() == live@.len() == meta@.len(),
            reclaim_plan(bs, live@, meta@, cutoff as int).1 <= u64::MAX,
            crate::idset::id_bytes(out@) == reclaim_plan(
                bs.take(i as int),
                live@.take(i as int),
                meta@.take(i as int),
                cutoff as int,
            ).0,
            bytes == reclaim_plan(
                bs.take(i as int),
                live@.take(i as int),
                meta@.take(i as int),
                cutoff as int,
            ).1,
        decreases ids@.len() - i,
    {
        proof {
            lemma_reclaim_plan_prefix(bs, live@, meta@, cutoff as int, i as int);
            lemma_reclaim_total_mono(bs, live@, meta@, cutoff as int, i + 1);
        }
        if !live[i] {
            match meta[i] {
                Some((modified, size)) => {
                    if !is_after(modified, cutoff) {
                        let ghost before = out@;
                        out.push(ids[i]);
                        assert(crate::idset::id_bytes(out@) =~= crate::idset::id_bytes(before).push(
                            bs[i as int],
                        ));
                        bytes = bytes + size;
                    }
                },
                None => {},
            }
        }
        i = i + 1;
    }
    assert(bs.take(i as int) =~= bs);
    assert(live@.take(i as int) =~= live@);
    assert(meta@.take(i as int) =~= meta@);
    (out, bytes)
}

/// [`plan_reclaim`] when its byte total fits in a `u64`; `None` exactly
/// when it does not (the running total would overflow).
pub fn plan_reclaim_checked(
    ids: &Vec<ContentId>,
    live: &Vec<bool>,
    meta: &Vec<Option<(Timestamp, u64)>>,
    cutoff: i128,
) -> (r: Option<(Vec<ContentId>, u64)>)
    requires
        ids@.len() == live@.len() == meta@.len(),
    ensures
        r is None <==> reclaim_plan(crate::idset::id_bytes(ids@), live@, meta@, cutoff as int).1
            > u64::MAX,
        r matches Some(p) ==> crate::idset::id_bytes(p.0@) == reclaim_plan(
            crate::idset::id_bytes(ids@),
            live@,
            meta@,
            cutoff as int,
        ).0 && p.1 == reclaim_plan(crate::idset::id_bytes(ids@), live@, meta@, cutoff as int).1,
{
    let ghost bs = crate::idset::id_bytes(ids@);
    let mut bytes: u64 = 0;
    let mut i: usize = 0;
    while i < ids.len()
        invariant
            i <= ids@.len(),
            bs == crate::idset::id_bytes(ids@),
            ids@.len() == live@.len() == meta@.len(),
            bytes == reclaim_plan(
                bs.take(i as int),
                live@.take(i as int),
                meta@.take(i as int),
                cutoff as int,
            ).1,
        decreases ids@.len() - i,
    {
        proof {
            lemma_reclaim_plan_prefix(bs, live@, meta@, cutoff as int, i as int);
            lemma_reclaim_total_mono(bs, live@, meta@, cutoff as int, i + 1);
        }
        if !live[i] {
            match meta[i] {
                Some((modified, size)) => {
                    if !is_after(modified, cutoff) {
                        match bytes.checked_add(size) {
                            Some(b) => {
                                bytes = b;
                            },
                            None => {
                                return None;
                            },
                        }
                    }
                },
                None => {},
            }
        }
        i = i + 1;
    }
    assert(bs.take(i as int) =~= bs);
    assert(live@.take(i as int) =~= live@);
    assert(meta@.take(i as int) =~= meta@);
    Some(plan_reclaim(ids, live, meta, cutoff))
}

/// What a sweep deletes and what it reports: the ids it deletes, how
/// many blobs it reclaims and their total size. The reclaimable blobs
/// and their bytes are reported either way; a dry run deletes nothing.
pub open spec fn sweep_report_spec(
    ids: Seq<Seq<u8>>,
    live: Seq<bool>,
    meta: Seq<Option<(Timestamp, u64)>>,
    cutoff: int,
    dry_run: bool,
) -> (Seq<Seq<u8>>, int, int) {
    let plan = reclaim_plan(ids, live, meta, cutoff);
    (if dry_run { Seq::empty() } else { plan.0 }, plan.0.len() as int, plan.1)
}

/// A dry run reports what the real sweep would, and deletes nothing.
pub proof fn lemma_dry_run_reports_alike(
    ids: Seq<Seq<u8>>,
    live: Seq<bool>,
    meta: Seq<Option<(Timestamp, u64)>>,
    cutoff: int,
)
    ensures
        sweep_report_spec(ids, live, meta, cutoff, true).0.len() == 0,
        sweep_report_spec(ids, live, meta, cutoff, true).1 == sweep_report_spec(
            ids,
            live,
            meta,
            cutoff,
            false,
        ).1,
        sweep_report_spec(ids, live, meta, cutoff, true).2 == sweep_report_spec(
            ids,
            live,
            meta,
            cutoff,
            false,
        ).2,
{
}

/// Plan one blob sweep: the ids to delete, the count reclaimed and the
/// bytes reclaimed, as [`sweep_report_spec`] says; `None` exactly when
/// the byte total does not fit in a `u64`.
pub fn plan_sweep(
    ids: &Vec<ContentId>,
    live: &Vec<bool>,
    meta: &Vec<Option<(Timestamp, u64)>>,
    cutoff: i128,
    dry_run: bool,
) -> (r: Option<(Vec<ContentId>, u64, u64)>)
    requires
        ids@.len() == live@.len() == meta@.len(),
    ensures
        r is None <==> reclaim_plan(crate::idset::id_bytes(ids@), live@, meta@, cutoff as int).1
            > u64::MAX,
        r matches Some(p) ==> (crate::idset::id_bytes(p.0@), p.1 as int, p.2 as int)
            == sweep_report_spec(crate::idset::id_bytes(ids@), live@, meta@, cutoff as int, dry_run),
{
    match plan_reclaim_checked(ids, live, meta, cutoff) {
        None => None,
        Some((doomed, bytes)) => {
            let count = doomed.len() as u64;
            if dry_run {
                let none: Vec<ContentId> = Vec::new();
                assert(crate::idset::id_bytes(none@) =~= Seq::<Seq<u8>>::empty());
                Some((none, count, bytes))
            } else {
                Some((doomed, count, bytes))
            }
        },
    }
}

/// Which ids the marks keep alive, in order.
pub fn marked_flags(ids: &Vec<ContentId>, marked: &IdSet) -> (r: Vec<bool>)
    ensures
        r@.len() == ids@.len(),
        forall|i: int| 0 <= i < ids@.len() ==> r@[i] == marked@.contains(#[trigger] ids@[i].0@),
{
    let mut r: Vec<bool> = Vec::new();
    for i in 0..ids.len()
        invariant
            r@.len() == i,
            forall|k: int| 0 <= k < i ==> r@[k] == marked@.contains(#[trigger] ids@[k].0@),
    {
        let b = marked.contains(&ids[i]);
        r.push(b);
    }
    r
}

/// Which ids their reference counts keep alive, in order: a count
/// above zero (`None` means no count file, which is zero).
pub fn referenced_flags(counts: &Vec<Option<u64>>) -> (r: Vec<bool>)
    ensures
        r@.len() == counts@.len(),
        forall|i: int| 0 <= i < counts@.len() ==> r@[i] == (#[trigger] counts@[i] matches Some(c) && c > 0),
{
    let mut r: Vec<bool> = Vec::new();
    for i in 0..counts.len()
        invariant
            r@.len() == i,
            forall|k: int| 0 <= k < i ==> r@[k] == (#[trigger] counts@[k] matches Some(c) && c > 0),
    {
        let b = match counts[i] {
            Some(c) => c > 0,
            None => false,
        };
        r.push(b);
    }
    r
}


// ---------------------------------------------------------------------------
// Snapshot retention
// ---------------------------------------------------------------------------

/// One unreferenced snapshot the retention budget weighs.
#[derive(Debug, Clone, Copy, PartialEq, Eq, Structural)]
pub struct SnapshotCandidate {
    /// Unix seconds of its last use (its LRU stamp, else its mtime).
    pub last_use: u64,
    /// Its size in bytes.
    pub size: u64,
    /// Still inside the grace window.
    pub is_young: bool,
}

impl SnapshotCandidate {
    /// A snapshot weighed by its last-use stamp, or by its directory's
    /// modification time when it has none.
    pub fn new(lru_stamp: Option<u64>, mtime_secs: u64, size: u64, aged_out: bool) -> (c: SnapshotCandidate)
        ensures
            c.last_use == match lru_stamp {
                Some(t) => t,
                None => mtime_secs,
            },
            c.size == size,
            c.is_young == !aged_out,
    {
        let last_use = match lru_stamp {
            Some(t) => t,
            None => mtime_secs,
        };
        SnapshotCandidate { last_use, size, is_young: !aged_out }
    }
}

/// What becomes of one unreferenced snapshot.
#[derive(Debug, Clone, Copy, PartialEq, Eq, Structural)]
pub enum Retention {
    /// Retained.
    Keep,
    /// Removed for having aged out, with no custom budget in force.
    GraceRemove,
    /// Evicted to keep within the count cap or the byte budget.
    CapEvict,
}

/// `a` comes before `b` in most-recently-used order: used later, or
/// used at the same time and listed first.
pub open spec fn mru_before(c: Seq<SnapshotCandidate>, a: int, b: int) -> bool {
    c[a].last_use > c[b].last_use || (c[a].last_use == c[b].last_use && a < b)
}

/// `order` lists every candidate index once, most recently used first,
/// ties in listing order.
pub open spec fn mru_order(c: Seq<SnapshotCandidate>, order: Seq<usize>) -> bool {
    &&& order.len() == c.len()
    &&& forall|i: int| 0 <= i < order.len() ==> #[trigger] order[i] < c.len()
    &&& forall|i: int, j: int|
        0 <= i < j < order.len() ==> mru_before(c, #[trigger] order[i] as int, #[trigger] order[j] as int)
}

/// The candidates in the given order.
pub open spec fn in_order(c: Seq<SnapshotCandidate>, order: Seq<usize>) -> Seq<SnapshotCandidate> {
    order.map_values(|k: usize| c[k as int])
}

/// A budget below the defaults is in force: a byte limit, or a count
/// cap under the default.
pub open spec fn has_custom_budget(cap: usize, max_bytes: Option<u64>) -> bool {
    max_bytes is Some || cap < DEFAULT_SNAPSHOT_CAP
}

pub open spec fn sat_add(a: u64, b: u64) -> u64 {
    if a + b > u64::MAX { u64::MAX } else { (a + b) as u64 }
}

/// Walking candidates most recent first with `count` retained so far
/// holding `bytes` (saturating): a young snapshot is always retained;
/// with no custom budget an aged-out one is a grace removal; otherwise
/// it is retained while the count stays under the cap and the bytes
/// within the limit, and evicted when not.
pub open spec fn retention_fold(
    cs: Seq<SnapshotCandidate>,
    cap: usize,
    max_bytes: Option<u64>,
    count: int,
    bytes: u64,
) -> Seq<Retention>
    decreases cs.len(),
{
    if cs.len() == 0 {
        seq![]
    } else {
        let c = cs[0];
        let rest = cs.drop_first();
        if c.is_young {
            seq![Retention::Keep] + retention_fold(rest, cap, max_bytes, count + 1, sat_add(bytes, c.size))
        } else if !has_custom_budget(cap, max_bytes) {
            seq![Retention::GraceRemove] + retention_fold(rest, cap, max_bytes, count, bytes)
        } else {
            let count_ok = count < cap;
            let bytes_ok = match max_bytes {
                Some(m) => sat_add(bytes, c.size) <= m,
                None => true,
            };
            if count_ok && bytes_ok {
                seq![Retention::Keep] + retention_fold(
                    rest,
                    cap,
                    max_bytes,
                    count + 1,
                    sat_add(bytes, c.size),
                )
            } else {
                seq![Retention::CapEvict] + retention_fold(rest, cap, max_bytes, count, bytes)
            }
        }
    }
}

/// Retention gives one verdict per candidate, and a snapshot still
/// inside the grace window is always kept, whatever the budget.
pub proof fn lemma_young_always_kept(
    cs: Seq<SnapshotCandidate>,
    cap: usize,
    max_bytes: Option<u64>,
    count: int,
    bytes: u64,
)
    ensures
        retention_fold(cs, cap, max_bytes, count, bytes).len() == cs.len(),
        forall|i: int|
            0 <= i < cs.len() && (#[trigger] cs[i]).is_young ==> retention_fold(cs, cap, max_bytes, count, bytes)[i]
                == Retention::Keep,
    decreases cs.len(),
{
    if cs.len() > 0 {
        let c = cs[0];
        let rest = cs.drop_first();
        let (count2, bytes2) = if c.is_young {
            (count + 1, sat_add(bytes, c.size))
        } else if !has_custom_budget(cap, max_bytes) {
            (count, bytes)
        } else {
            let bytes_ok = match max_bytes {
                Some(m) => sat_add(bytes, c.size) <= m,
                None => true,
            };
            if count < cap && bytes_ok {
                (count + 1, sat_add(bytes, c.size))
            } else {
                (count, bytes)
            }
        };
        lemma_young_always_kept(rest, cap, max_bytes, count2, bytes2);
        let r = retention_fold(cs, cap, max_bytes, count, bytes);
        assert(r == seq![r[0]] + retention_fold(rest, cap, max_bytes, count2, bytes2));
        assert forall|i: int| 0 <= i < cs.len() && (#[trigger] cs[i]).is_young implies r[i] == Retention::Keep by {
            if i > 0 {
                assert(cs[i] == rest[i - 1]);
            }
        }
    }
}

/// Under a count cap alone, eviction takes the least recently used
/// first: once an aged-out snapshot is evicted, every aged-out snapshot
/// after it in most-recently-used order is evicted too.
pub proof fn lemma_cap_evicts_least_recent(cs: Seq<SnapshotCandidate>, cap: usize, count: int, bytes: u64)
    requires
        cap < DEFAULT_SNAPSHOT_CAP,
    ensures
        forall|i: int, j: int|
            0 <= i < j < cs.len() && !cs[i].is_young && !cs[j].is_young && #[trigger] retention_fold(
                cs,
                cap,
                None,
                count,
                bytes,
            )[i] == Retention::CapEvict ==> #[trigger] retention_fold(cs, cap, None, count, bytes)[j]
                == Retention::CapEvict,
    decreases cs.len(),
{
    lemma_young_always_kept(cs, cap, None, count, bytes);
    if cs.len() > 0 {
        let c = cs[0];
        let rest = cs.drop_first();
        let r = retention_fold(cs, cap, None, count, bytes);
        if c.is_young {
            let r2 = retention_fold(rest, cap, None, count + 1, sat_add(bytes, c.size));
            lemma_cap_evicts_least_recent(rest, cap, count + 1, sat_add(bytes, c.size));
            assert(r == seq![Retention::Keep] + r2);
            assert forall|i: int, j: int|
                0 <= i < j < cs.len() && !cs[i].is_young && !cs[j].is_young && #[trigger] r[i]
                    == Retention::CapEvict implies #[trigger] r[j] == Retention::CapEvict by {
                assert(cs[i] == rest[i - 1] && cs[j] == rest[j - 1]);
                assert(r[i] == r2[i - 1] && r[j] == r2[j - 1]);
            }
        } else if count < cap {
            let r2 = retention_fold(rest, cap, None, count + 1, sat_add(bytes, c.size));
            lemma_cap_evicts_least_recent(rest, cap, count + 1, sat_add(bytes, c.size));
            assert(r == seq![Retention::Keep] + r2);
            assert forall|i: int, j: int|
                0 <= i < j < cs.len() && !cs[i].is_young && !cs[j].is_young && #[trigger] r[i]
                    == Retention::CapEvict implies #[trigger] r[j] == Retention::CapEvict by {
                assert(cs[i] == rest[i - 1] && cs[j] == rest[j - 1]);
                assert(r[i] == r2[i - 1] && r[j] == r2[j - 1]);
            }
        } else {
            let r2 = retention_fold(rest, cap, None, count, bytes);
            lemma_cap_full_evicts(rest, cap, count, bytes);
            assert(r == seq![Retention::CapEvict] + r2);
            assert forall|i: int, j: int|
                0 <= i < j < cs.len() && !cs[i].is_young && !cs[j].is_young && #[trigger] r[i]
                    == Retention::CapEvict implies #[trigger] r[j] == Retention::CapEvict by {
                assert(cs[j] == rest[j - 1]);
                assert(r[j] == r2[j - 1]);
            }
        }
    }
}

/// Under a custom budget (a count cap below the default, or any byte
/// limit), once the retained count has reached the cap every aged-out
/// snapshot that follows is evicted, whatever the byte limit.
pub proof fn lemma_cap_reached_evicts(
    cs: Seq<SnapshotCandidate>,
    cap: usize,
    max_bytes: Option<u64>,
    count: int,
    bytes: u64,
)
    requires
        max_bytes is Some || cap < DEFAULT_SNAPSHOT_CAP,
        count >= cap,
    ensures
        retention_fold(cs, cap, max_bytes, count, bytes).len() == cs.len(),
        forall|j: int|
            0 <= j < cs.len() && !(#[trigger] cs[j]).is_young ==> retention_fold(
                cs,
                cap,
                max_bytes,
                count,
                bytes,
            )[j] == Retention::CapEvict,
    decreases cs.len(),
{
    if cs.len() > 0 {
        let c = cs[0];
        let rest = cs.drop_first();
        let r = retention_fold(cs, cap, max_bytes, count, bytes);
        if c.is_young {
            lemma_cap_reached_evicts(rest, cap, max_bytes, count + 1, sat_add(bytes, c.size));
            let r2 = retention_fold(rest, cap, max_bytes, count + 1, sat_add(bytes, c.size));
            assert(r == seq![Retention::Keep] + r2);
            assert forall|j: int| 0 <= j < cs.len() && !(#[trigger] cs[j]).is_young implies r[j]
                == Retention::CapEvict by {
                assert(cs[j] == rest[j - 1]);
            }
        } else {
            lemma_cap_reached_evicts(rest, cap, max_bytes, count, bytes);
            let r2 = retention_fold(rest, cap, max_bytes, count, bytes);
            assert(r == seq![Retention::CapEvict] + r2);
            assert forall|j: int| 0 <= j < cs.len() && !(#[trigger] cs[j]).is_young implies r[j]
                == Retention::CapEvict by {
                if j > 0 {
                    assert(cs[j] == rest[j - 1]);
                }
            }
        }
    }
}

/// With no custom budget (the default count cap or more, and no byte
/// limit), every aged-out snapshot is removed by the grace rule and
/// nothing is evicted by the cap.
pub proof fn lemma_default_budget_grace_removes(
    cs: Seq<SnapshotCandidate>,
    cap: usize,
    count: int,
    bytes: u64,
)
    requires
        cap >= DEFAULT_SNAPSHOT_CAP,
    ensures
        retention_fold(cs, cap, None, count, bytes).len() == cs.len(),
        forall|j: int|
            0 <= j < cs.len() && !(#[trigger] cs[j]).is_young ==> retention_fold(cs, cap, None, count, bytes)[j]
                == Retention::GraceRemove,
    decreases cs.len(),
{
    if cs.len() > 0 {
        let c = cs[0];
        let rest = cs.drop_first();
        let r = retention_fold(cs, cap, None, count, bytes);
        let (count2, bytes2) = if c.is_young {
            (count + 1, sat_add(bytes, c.size))
        } else {
            (count, bytes)
        };
        lemma_default_budget_grace_removes(rest, cap, count2, bytes2);
        assert(r == seq![r[0]] + retention_fold(rest, cap, None, count2, bytes2));
        assert forall|j: int| 0 <= j < cs.len() && !(#[trigger] cs[j]).is_young implies r[j]
            == Retention::GraceRemove by {
            if j > 0 {
                assert(cs[j] == rest[j - 1]);
            }
        }
    }
}

/// With the count cap reached, every aged-out snapshot is evicted.
proof fn lemma_cap_full_evicts(cs: Seq<SnapshotCandidate>, cap: usize, count: int, bytes: u64)
    requires
        cap < DEFAULT_SNAPSHOT_CAP,
        count >= cap,
    ensures
        retention_fold(cs, cap, None, count, bytes).len() == cs.len(),
        forall|j: int|
            0 <= j < cs.len() && !(#[trigger] cs[j]).is_young ==> retention_fold(cs, cap, None, count, bytes)[j]
                == Retention::CapEvict,
    decreases cs.len(),
{
    if cs.len() > 0 {
        let c = cs[0];
        let rest = cs.drop_first();
        let r = retention_fold(cs, cap, None, count, bytes);
        if c.is_young {
            lemma_cap_full_evicts(rest, cap, count + 1, sat_add(bytes, c.size));
            let r2 = retention_fold(rest, cap, None, count + 1, sat_add(bytes, c.size));
            assert(r == seq![Retention::Keep] + r2);
            assert forall|j: int| 0 <= j < cs.len() && !(#[trigger] cs[j]).is_young implies r[j] == Retention::CapEvict by {
                assert(cs[j] == rest[j - 1]);
            }
        } else {
            lemma_cap_full_evicts(rest, cap, count, bytes);
            let r2 = retention_fold(rest, cap, None, count, bytes);
            assert(r == seq![Retention::CapEvict] + r2);
            assert forall|j: int| 0 <= j < cs.len() && !(#[trigger] cs[j]).is_young implies r[j] == Retention::CapEvict by {
                if j > 0 {
                    assert(cs[j] == rest[j - 1]);
                }
            }
        }
    }
}

pub open spec fn last_use_keys(c: Seq<SnapshotCandidate>) -> Seq<u128> {
    c.map_values(|x: SnapshotCandidate| x.last_use as u128)
}

/// Candidate indices sorted most recently used first, ties in listing
/// order.
pub fn mru_sort(c: &Vec<SnapshotCandidate>) -> (order: Vec<usize>)
    ensures
        mru_order(c@, order@),
{
    let mut keys: Vec<u128> = Vec::new();
    for i in 0..c.len()
        invariant
            keys@ == last_use_keys(c@).take(i as int),
    {
        keys.push(c[i].last_use as u128);
        assert(keys@ =~= last_use_keys(c@).take(i + 1));
    }
    assert(keys@ =~= last_use_keys(c@));
    let order = crate::order::stable_desc_order(&keys);
    proof {
        assert forall|i: int, j: int| 0 <= i < j < order@.len() implies mru_before(
            c@,
            #[trigger] order@[i] as int,
            #[trigger] order@[j] as int,
        ) by {
            assert(crate::order::desc_before(keys@, order@[i] as int, order@[j] as int));
        }
    }
    order
}

/// Weigh unreferenced snapshots against the retention budget: the
/// candidates most recently used first, and what becomes of each in
/// that order.
pub fn plan_retention(c: &Vec<SnapshotCandidate>, cap: usize, max_bytes: Option<u64>) -> (r: (
    Vec<usize>,
    Vec<Retention>,
))
    ensures
        mru_order(c@, r.0@),
        r.1@ == retention_fold(in_order(c@, r.0@), cap, max_bytes, 0, 0),
{
    let order = mru_sort(c);
    let ghost cs = in_order(c@, order@);
    let custom = max_bytes.is_some() || cap < DEFAULT_SNAPSHOT_CAP;
    let mut verdicts: Vec<Retention> = Vec::new();
    let mut count: usize = 0;
    let mut bytes: u64 = 0;
    let mut i: usize = 0;
    assert(cs.skip(0) =~= cs);
    assert(verdicts@ + retention_fold(cs.skip(0), cap, max_bytes, 0, 0) =~= retention_fold(
        cs,
        cap,
        max_bytes,
        0,
        0,
    ));
    while i < order.len()
        invariant
            i <= order@.len(),
            mru_order(c@, order@),
            cs == in_order(c@, order@),
            cs.len() == order@.len(),
            custom == has_custom_budget(cap, max_bytes),
            count <= i,
            verdicts@ + retention_fold(cs.skip(i as int), cap, max_bytes, count as int, bytes)
                == retention_fold(cs, cap, max_bytes, 0, 0),
        decreases order@.len() - i,
    {
        let k = order[i];
        let cand = c[k];
        let ghost rest = cs.skip(i as int);
        let ghost count0 = count;
        let ghost bytes0 = bytes;
        proof {
            assert(rest[0] == cand);
            assert(rest.drop_first() =~= cs.skip(i + 1));
        }
        let v = if cand.is_young {
            count = count + 1;
            bytes = bytes.saturating_add(cand.size);
            Retention::Keep
        } else if !custom {
            Retention::GraceRemove
        } else {
            let count_ok = count < cap;
            let bytes_ok = match max_bytes {
                Some(m) => bytes.saturating_add(cand.size) <= m,
                None => true,
            };
            if count_ok && bytes_ok {
                count = count + 1;
                bytes = bytes.saturating_add(cand.size);
                Retention::Keep
            } else {
                Retention::CapEvict
            }
        };
        let ghost before = verdicts@;
        verdicts.push(v);
        proof {
            assert(retention_fold(rest, cap, max_bytes, count0 as int, bytes0) == seq![v]
                + retention_fold(cs.skip(i + 1), cap, max_bytes, count as int, bytes));
            assert(verdicts@ =~= before + seq![v]);
        }
        i = i + 1;
        proof {
            assert(verdicts@ + retention_fold(cs.skip(i as int), cap, max_bytes, count as int, bytes)
                =~= retention_fold(cs, cap, max_bytes, 0, 0));
        }
    }
    assert(cs.skip(i as int) =~= Seq::<SnapshotCandidate>::empty());
    assert(verdicts@ =~= verdicts@ + retention_fold(cs.skip(i as int), cap, max_bytes, count as int, bytes));
    (order, verdicts)
}


// ---------------------------------------------------------------------------
// What a snapshot directory holds
// ---------------------------------------------------------------------------

/// One name found in `<root>/snapshots/`.
#[derive(Debug, Clone, Copy, PartialEq, Eq)]
pub enum SnapshotDirEntry {
    /// Live selection or retention metadata; never collected.
    Metadata,
    /// The temp build directory; its aged-out contents are debris.
    TmpDir,
    /// A published (or half-published) snapshot.
    Snapshot(ContentId),
    /// Anything else: sidecar temp debris, collected once aged out.
    Debris,
}

pub open spec fn metadata_names() -> Set<Seq<char>> {
    set!["index.tsv"@, "lru.tsv"@, "journal.tsv"@, "metadata.lock"@]
}

/// Classify a name found under `snapshots/`.
pub fn classify_snapshot_entry(name: &str) -> (r: SnapshotDirEntry)
    ensures
        r is Metadata <==> metadata_names().contains(name@),
        r is TmpDir <==> !metadata_names().contains(name@) && name@ == "tmp"@,
        r matches SnapshotDirEntry::Snapshot(id) ==> crate::from_hex_spec(name@) == Some(id.0@),
        r is Debris <==> !metadata_names().contains(name@) && name@ != "tmp"@
            && crate::from_hex_spec(name@) is None,
{
    let index = "index.tsv";
    let lru = "lru.tsv";
    let journal = "journal.tsv";
    let lock = "metadata.lock";
    if crate::text::str_eq(name, index) || crate::text::str_eq(name, lru) || crate::text::str_eq(
        name,
        journal,
    ) || crate::text::str_eq(name, lock) {
        return SnapshotDirEntry::Metadata;
    }
    if crate::text::str_eq(name, "tmp") {
        return SnapshotDirEntry::TmpDir;
    }
    match ContentId::from_hex(name) {
        Some(id) => SnapshotDirEntry::Snapshot(id),
        None => SnapshotDirEntry::Debris,
    }
}

/// What the snapshot sweep does with one name under `snapshots/`.
#[derive(Debug, Clone, Copy)]
pub enum SnapshotDirFate {
    /// Left alone: metadata, the temp build directory (whose entries
    /// age out one by one), a referenced snapshot, or young debris.
    Keep,
    /// Removed as aged-out debris.
    Remove,
    /// An unreferenced snapshot, weighed against the retention budget.
    Weigh(ContentId),
}

/// The fate of the name `name` under `snapshots/`, given the snapshots
/// the mark phase found referenced and whether the entry has aged out
/// of the grace window. A referenced snapshot is never weighed or
/// removed, whatever the budget.
pub fn snapshot_dir_fate(name: &str, referenced: &IdSet, aged_out: bool) -> (r: SnapshotDirFate)
    ensures
        metadata_names().contains(name@) || name@ == "tmp"@ ==> r is Keep,
        !metadata_names().contains(name@) && name@ != "tmp"@ ==> match crate::from_hex_spec(name@) {
            Some(b) => if referenced@.contains(b) {
                r is Keep
            } else {
                r matches SnapshotDirFate::Weigh(id) && id.0@ == b
            },
            None => if aged_out {
                r is Remove
            } else {
                r is Keep
            },
        },
{
    match classify_snapshot_entry(name) {
        SnapshotDirEntry::Metadata | SnapshotDirEntry::TmpDir => SnapshotDirFate::Keep,
        SnapshotDirEntry::Snapshot(id) => {
            if referenced.contains(&id) {
                SnapshotDirFate::Keep
            } else {
                SnapshotDirFate::Weigh(id)
            }
        },
        SnapshotDirEntry::Debris => if aged_out {
            SnapshotDirFate::Remove
        } else {
            SnapshotDirFate::Keep
        },
    }
}

/// The size a snapshot is weighed at: the total its manifest header
/// records when that is known (above zero), else the sum of the sizes
/// of its distinct blobs that could be read.
pub fn snapshot_weight(total_size: u64, blob_sizes: &Vec<Option<u64>>) -> (r: u64)
    requires
        total_size == 0 ==> known_sum(blob_sizes@) <= u64::MAX,
    ensures
        r == if total_size > 0 { total_size as int } else { known_sum(blob_sizes@) },
{
    if total_size > 0 {
        return total_size;
    }
    let mut sum: u64 = 0;
    let mut i: usize = 0;
    assert(blob_sizes@.take(0) =~= Seq::<Option<u64>>::empty());
    while i < blob_sizes.len()
        invariant
            i <= blob_sizes@.len(),
            known_sum(blob_sizes@) <= u64::MAX,
            sum == known_sum(blob_sizes@.take(i as int)),
        decreases blob_sizes@.len() - i,
    {
        assert(blob_sizes@.take(i + 1).drop_last() =~= blob_sizes@.take(i as int));
        proof {
            lemma_known_sum_prefix(blob_sizes@, i + 1);
        }
        match blob_sizes[i] {
            Some(n) => {
                sum = sum + n;
            },
            None => {},
        }
        i = i + 1;
    }
    assert(blob_sizes@.take(i as int) =~= blob_sizes@);
    sum
}

/// The sum of the sizes that are known.
pub open spec fn known_sum(s: Seq<Option<u64>>) -> int
    decreases s.len(),
{
    if s.len() == 0 {
        0
    } else {
        known_sum(s.drop_last()) + match s.last() {
            Some(n) => n as int,
            None => 0int,
        }
    }
}

proof fn lemma_known_sum_prefix(s: Seq<Option<u64>>, k: int)
    requires
        0 <= k <= s.len(),
    ensures
        0 <= known_sum(s.take(k)) <= known_sum(s),
    decreases s.len() - k,
{
    if k < s.len() {
        lemma_known_sum_prefix(s, k + 1);
        assert(s.take(k + 1).drop_last() =~= s.take(k));
        lemma_known_sum_nonneg(s.take(k));
    } else {
        assert(s.take(k) =~= s);
        lemma_known_sum_nonneg(s);
    }
}

proof fn lemma_known_sum_nonneg(s: Seq<Option<u64>>)
    ensures
        known_sum(s) >= 0,
    decreases s.len(),
{
    if s.len() > 0 {
        lemma_known_sum_nonneg(s.drop_last());
    }
}

/// The distinct blobs a manifest names, in increasing order.
pub fn distinct_blobs(m: &Manifest) -> (r: IdSet)
    ensures
        r@ == manifest_blobs(m@.entries),
{
    let mut r = IdSet::new();
    assert(r@ =~= Set::<Seq<u8>>::empty());
    mark_manifest(&mut r, m);
    assert(r@ =~= manifest_blobs(m@.entries));
    r
}

// ---------------------------------------------------------------------------
// Releasing references
// ---------------------------------------------------------------------------

/// The blobs whose references a retired worktree gives back: those its
/// sidecar records plus every blob of each snapshot it records that
/// still resolves; nothing once the store no longer writes refcounts.
pub fn release_set(mode: GcMode, blobs: &IdSet, snapshots: &IdSet, resolved: &Vec<Option<Manifest>>) -> (r: IdSet)
    requires
        resolved@.len() == snapshots.items().len(),
    ensures
        mode == GcMode::MarkSweepNoRefs ==> r@ == Set::<Seq<u8>>::empty(),
        mode != GcMode::MarkSweepNoRefs ==> r@ == blobs@.union(resolved_blobs(opt_manifests_view(resolved@))),
{
    let mut r = IdSet::new();
    assert(r@ =~= Set::<Seq<u8>>::empty());
    if mode == GcMode::MarkSweepNoRefs {
        return r;
    }
    r.insert_all(blobs);
    let ghost rv = opt_manifests_view(resolved@);
    let ghost base = r@;
    let mut i: usize = 0;
    assert(rv.take(0) =~= Seq::<Option<Seq<EntryView>>>::empty());
    assert(r@ =~= base.union(resolved_blobs(rv.take(0))));
    while i < resolved.len()
        invariant
            i <= resolved@.len(),
            rv == opt_manifests_view(resolved@),
            r@ == base.union(resolved_blobs(rv.take(i as int))),
        decreases resolved@.len() - i,
    {
        assert(rv.take(i + 1).drop_last() =~= rv.take(i as int));
        assert(rv.take(i + 1).last() == rv[i as int]);
        match &resolved[i] {
            Some(m) => {
                mark_manifest(&mut r, m);
                assert(r@ =~= base.union(resolved_blobs(rv.take(i + 1))));
            },
            None => {
                assert(r@ =~= base.union(resolved_blobs(rv.take(i + 1))));
            },
        }
        i = i + 1;
    }
    assert(rv.take(i as int) =~= rv);
    assert(r@ =~= blobs@.union(resolved_blobs(rv)));
    r
}

/// The receipt of a retirement: how many releases took effect, and
/// whether a mirror went away (or there was a sidecar to remove).
pub fn retirement_receipt(released: usize, mirror_removed: bool, had_sidecar: bool) -> (r: RetirementReceipt)
    ensures
        r.references_released == released,
        r.mirror_removed == (mirror_removed || had_sidecar),
{
    RetirementReceipt { references_released: released, mirror_removed: mirror_removed || had_sidecar }
}

// ---------------------------------------------------------------------------
// Leases
// ---------------------------------------------------------------------------

/// Whether a lease is reclaimed: its process is dead, it has expired,
/// or its worktree is gone.
pub fn lease_reclaimable(process_dead: bool, expired: bool, worktree_gone: bool) -> (r: bool)
    ensures
        r == (process_dead || expired || worktree_gone),
{
    process_dead || expired || worktree_gone
}

/// Whether an unreadable lease file is reclaimed: once it has aged out.
pub fn invalid_lease_reclaimable(modified: Timestamp, cutoff: i128) -> (r: bool)
    ensures
        r == !after_cutoff(modified, cutoff as int),
{
    !is_after(modified, cutoff)
}

pub open spec fn kw_head_ref() -> Seq<char> {
    "ref: refs/heads/"@
}

pub open spec fn kw_scratch() -> Seq<char> {
    "scratch-"@
}

/// The branch a reclaimed lease's worktree is on: the branch its
/// `HEAD` names (`ref: refs/heads/<branch>`, whitespace trimmed), else
/// the lease id with the `scratch-` prefix it is created under.
pub open spec fn cleanup_branch_spec(head: Option<Seq<char>>, lease_id: Seq<char>) -> Seq<char> {
    let from_head = match head {
        Some(h) => {
            let t = trim_spec(h);
            if crate::text::starts_with_spec(t, kw_head_ref()) {
                Some(t.skip(kw_head_ref().len() as int))
            } else {
                None
            }
        },
        None => None,
    };
    match from_head {
        Some(b) => b,
        None => if crate::text::starts_with_spec(lease_id, kw_scratch()) {
            lease_id
        } else {
            kw_scratch() + lease_id
        },
    }
}

/// [`cleanup_branch_spec`].
pub fn cleanup_branch(head: Option<&str>, lease_id: &str) -> (r: String)
    ensures
        r@ == cleanup_branch_spec(
            match head {
                Some(h) => Some(h@),
                None => None,
            },
            lease_id@,
        ),
{
    let prefix = "ref: refs/heads/";
    let scratch = "scratch-";
    match head {
        Some(h) => {
            let t = trim_exec(&chars_of(h), true);
            if crate::text::starts_with(&t, prefix) {
                let n = chars_of(prefix).len();
                let rest = crate::text::slice_chars(&t, n, t.len());
                assert(rest@ =~= t@.skip(n as int));
                return crate::text::string_of(&rest);
            }
        },
        None => {},
    }
    let id = chars_of(lease_id);
    if crate::text::starts_with(&id, scratch) {
        crate::text::string_of(&id)
    } else {
        let mut v = chars_of(scratch);
        crate::text::extend_chars(&mut v, &id);
        crate::text::string_of(&v)
    }
}

// ---------------------------------------------------------------------------
// Audit
// ---------------------------------------------------------------------------

pub open spec fn audit_invalid_line(path: Seq<char>, reason: Seq<char>) -> Seq<char> {
    "wt-gc-audit: invalid mirror "@ + path + " ("@ + reason + ")"@
}

pub open spec fn audit_marked_only_line(id: Seq<u8>) -> Seq<char> {
    "wt-gc-audit: marked-only "@ + crate::hex_spec(id)
}

pub open spec fn audit_refcounted_only_line(id: Seq<u8>) -> Seq<char> {
    "wt-gc-audit: refcounted-only "@ + crate::hex_spec(id)
}

/// The lines of the first `n` present blobs that are marked but not
/// kept alive by a refcount, in order.
pub open spec fn marked_only_lines(present: Seq<Seq<u8>>, refs_live: Seq<bool>, marked: Set<Seq<u8>>, n: int) -> Seq<Seq<char>>
    decreases n,
{
    if n <= 0 {
        seq![]
    } else {
        let rest = marked_only_lines(present, refs_live, marked, n - 1);
        if marked.contains(present[n - 1]) && !refs_live[n - 1] {
            rest.push(audit_marked_only_line(present[n - 1]))
        } else {
            rest
        }
    }
}

/// The lines of the first `n` present blobs kept alive by a refcount
/// but not marked, in order.
pub open spec fn refcounted_only_lines(present: Seq<Seq<u8>>, refs_live: Seq<bool>, marked: Set<Seq<u8>>, n: int) -> Seq<Seq<char>>
    decreases n,
{
    if n <= 0 {
        seq![]
    } else {
        let rest = refcounted_only_lines(present, refs_live, marked, n - 1);
        if refs_live[n - 1] && !marked.contains(present[n - 1]) {
            rest.push(audit_refcounted_only_line(present[n - 1]))
        } else {
            rest
        }
    }
}

pub open spec fn invalid_lines(invalid: Seq<(Seq<char>, Seq<char>)>) -> Seq<Seq<char>> {
    invalid.map_values(|p: (Seq<char>, Seq<char>)| audit_invalid_line(p.0, p.1))
}

pub open spec fn strings_view(s: Seq<String>) -> Seq<Seq<char>> {
    s.map_values(|x: String| x@)
}

pub open spec fn pairs_view(s: Seq<(String, String)>) -> Seq<(Seq<char>, Seq<char>)> {
    s.map_values(|p: (String, String)| (p.0@, p.1@))
}

fn audit_line(prefix: &str, id: &ContentId) -> (r: String)
    ensures
        r@ == prefix@ + crate::hex_spec(id.0@),
{
    let mut v = chars_of(prefix);
    let h = id.hex_chars();
    crate::text::extend_chars(&mut v, &h);
    crate::text::string_of(&v)
}

/// The audit that compares mirror marks with refcount liveness over
/// the blobs present (in increasing order; `refs_live[i]` says whether
/// `present`'s `i`-th blob has a refcount above zero): the invalid
/// mirrors, then the blobs only the marks keep, then the blobs only the
/// refcounts keep. No line means the two schemes agree.
pub fn audit_lines(
    invalid: &Vec<(String, String)>,
    present: &IdSet,
    refs_live: &Vec<bool>,
    marked: &IdSet,
) -> (r: Vec<String>)
    requires
        refs_live@.len() == present.items().len(),
    ensures
        strings_view(r@) == invalid_lines(pairs_view(invalid@)) + marked_only_lines(
            present.items(),
            refs_live@,
            marked@,
            present.items().len() as int,
        ) + refcounted_only_lines(present.items(), refs_live@, marked@, present.items().len() as int),
{
    let mut out: Vec<String> = Vec::new();
    let ghost iv = pairs_view(invalid@);
    for i in 0..invalid.len()
        invariant
            iv == pairs_view(invalid@),
            strings_view(out@) == invalid_lines(iv.take(i as int)),
    {
        let mut v = chars_of("wt-gc-audit: invalid mirror ");
        crate::text::extend_str(&mut v, invalid[i].0.as_str());
        crate::text::extend_str(&mut v, " (");
        crate::text::extend_str(&mut v, invalid[i].1.as_str());
        crate::text::extend_str(&mut v, ")");
        let line = crate::text::string_of(&v);
        let ghost before = strings_view(out@);
        out.push(line);
        proof {
            assert(iv[i as int] == (invalid@[i as int].0@, invalid@[i as int].1@));
            assert(strings_view(out@) =~= before.push(line@));
            assert(iv.take(i + 1) =~= iv.take(i as int).push(iv[i as int]));
            assert(invalid_lines(iv.take(i + 1)) =~= invalid_lines(iv.take(i as int)).push(
                audit_invalid_line(iv[i as int].0, iv[i as int].1),
            ));
            assert(line@ =~= audit_invalid_line(iv[i as int].0, iv[i as int].1));
        }
    }
    assert(iv.take(invalid.len() as int) =~= iv);
    let ghost head = strings_view(out@);
    let ghost p = present.items();
    let n = present.len();
    for i in 0..n
        invariant
            n == p.len(),
            p == present.items(),
            refs_live@.len() == p.len(),
            strings_view(out@) == head + marked_only_lines(p, refs_live@, marked@, i as int),
    {
        let id = present.get(i);
        if marked.contains(&id) && !refs_live[i] {
            let line = audit_line("wt-gc-audit: marked-only ", &id);
            let ghost before = strings_view(out@);
            out.push(line);
            assert(strings_view(out@) =~= before.push(line@));
        }
    }
    let ghost mid = strings_view(out@);
    for i in 0..n
        invariant
            n == p.len(),
            p == present.items(),
            refs_live@.len() == p.len(),
            strings_view(out@) == mid + refcounted_only_lines(p, refs_live@, marked@, i as int),
    {
        let id = present.get(i);
        if refs_live[i] && !marked.contains(&id) {
            let line = audit_line("wt-gc-audit: refcounted-only ", &id);
            let ghost before = strings_view(out@);
            out.push(line);
            assert(strings_view(out@) =~= before.push(line@));
        }
    }
    out
}


// ---------------------------------------------------------------------------
// The reclaimer's own state
// ---------------------------------------------------------------------------

/// Store and lease reclamation state: the mirrors of leases already
/// reclaimed in this pass, which the object sweep then counts as dead.
#[derive(Debug, Clone, PartialEq, Eq)]
pub struct StoreReclaimer {
    dead_mirrors: Vec<String>,
}

impl StoreReclaimer {
    pub closed spec fn dead(&self) -> Set<Seq<char>> {
        strings_view(self.dead_mirrors@).to_set()
    }

    /// A reclaimer that has reclaimed nothing yet.
    pub fn new() -> (r: StoreReclaimer)
        ensures
            r.dead() == Set::<Seq<char>>::empty(),
    {
        let r = StoreReclaimer { dead_mirrors: Vec::new() };
        assert(strings_view(r.dead_mirrors@) =~= Seq::<Seq<char>>::empty());
        assert(r.dead() =~= Set::<Seq<char>>::empty());
        r
    }

    /// Remember the mirror path of a reclaimed lease.
    pub fn note_dead_mirror(&mut self, path: String)
        ensures
            final(self).dead() == old(self).dead().insert(path@),
    {
        let ghost before = strings_view(self.dead_mirrors@);
        self.dead_mirrors.push(path);
        proof {
            assert(strings_view(self.dead_mirrors@) =~= before.push(path@));
            before.lemma_push_to_set_commute(path@);
        }
    }

    /// Whether the mirror at `path` belongs to a reclaimed lease.
    pub fn is_dead_mirror(&self, path: &str) -> (b: bool)
        ensures
            b == self.dead().contains(path@),
    {
        let ghost sv = strings_view(self.dead_mirrors@);
        let mut i: usize = 0;
        while i < self.dead_mirrors.len()
            invariant
                i <= sv.len(),
                sv == strings_view(self.dead_mirrors@),
                forall|k: int| 0 <= k < i ==> sv[k] != path@,
            decreases sv.len() - i,
        {
            if crate::text::str_eq(self.dead_mirrors[i].as_str(), path) {
                assert(sv[i as int] == path@);
                return true;
            }
            i = i + 1;
        }
        assert(!sv.contains(path@));
        false
    }
}

} // verus!
