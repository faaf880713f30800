//! Hydration requests and receipts, and the decisions a hydration
//! makes around the filesystem work its caller performs: where each
//! ingested path lands in the destination worktree, which references
//! it claims, and what it reports.

use vstd::prelude::*;

use crate::disk::{object_path_spec, DiskStore};
use crate::gc::GcMode;
use crate::idset::IdSet;
use crate::ingest::{assoc, keyed_view, lemma_assoc_at, lookup, Ingested};
use crate::paths::path_join;
use crate::projection::{SnapshotHydration, SnapshotOutcome};
use crate::text::{chars_of, starts_with_spec, string_of};
use crate::ContentId;

verus! {

/// Destination identity for one hydrated directory.
#[derive(Debug, Clone, Copy)]
pub struct HydrateDest<'a> {
    /// Root directory of the destination worktree.
    pub worktree_root: &'a str,
    /// Git directory of the destination worktree.
    pub git_dir: &'a str,
    /// Optional base branch name.
    pub base_branch: Option<&'a str>,
    /// Optional base commit hash.
    pub base_commit: Option<&'a str>,
}

/// Already-ingested tree source for the full hydration path.
#[derive(Debug, Clone, Copy)]
pub struct HydrateTree<'a> {
    /// Everything the ingest walk found.
    pub ingested: &'a Ingested,
    /// Source repository root.
    pub repo_root: &'a str,
    /// Inclusion pattern for this heavy tree.
    pub pattern: &'a str,
    /// Source checkout root.
    pub src_root: &'a str,
    /// Relative path of the heavy directory.
    pub heavy_rel: &'a str,
    /// Pinned lockfile hash when the tree ships a pinned lockfile.
    pub lockfile_hash: Option<ContentId>,
}

/// Pinned-lockfile fast-path intent: a hit needs no ingest walk.
#[derive(Debug, Clone, Copy)]
pub struct HydratePinned<'a> {
    /// Source repository root.
    pub repo_root: &'a str,
    /// Inclusion pattern for this heavy tree.
    pub pattern: &'a str,
    /// Source checkout root.
    pub src_root: &'a str,
    /// Relative path of the heavy directory.
    pub heavy_rel: &'a str,
    /// SHA-256 of the pinned lockfile.
    pub lockfile_hash: ContentId,
}

/// Where the bytes come from.
#[derive(Debug, Clone, Copy)]
pub enum HydrateSrc<'a> {
    /// Full path: ingest already ran.
    Tree(HydrateTree<'a>),
    /// Fast path: clone a published snapshot without walking the tree.
    PinnedLockfile(HydratePinned<'a>),
}

/// Execution report of one hydration.
#[derive(Debug, Clone)]
pub struct HydrationReceipt {
    /// Strategy applied.
    pub strategy: String,
    /// Files processed.
    pub files_total: usize,
    /// Files physically copied.
    pub files_copied: usize,
    /// Bytes shared via copy-on-write or links.
    pub bytes_shared: u64,
    /// Bytes copied.
    pub bytes_copied: u64,
    /// A whole-directory snapshot served the directory.
    pub snapshot_hit: bool,
    /// Elapsed milliseconds.
    pub elapsed_ms: u128,
    /// Diagnostics to print.
    pub diagnostics: Vec<String>,
    /// Incremental rebuild: cloned units.
    pub v2_cloned: usize,
    /// Incremental rebuild: freshly linked files.
    pub v2_linked: usize,
    /// Why an incremental rebuild fell back, when it did.
    pub incremental_fallback_reason: Option<String>,
}

/// How file-by-file placement puts bytes in the worktree.
#[derive(Debug, Clone, Copy, PartialEq, Eq, Structural)]
pub enum StrategyPolicy {
    /// Copy-on-write clones where the filesystem offers them.
    Default,
    /// Hard links to the blobs.
    Hardlink,
    /// Plain byte copies.
    ForceByteCopy,
}

/// The name a placement strategy reports under.
pub open spec fn strategy_name_spec(p: StrategyPolicy) -> Seq<char> {
    match p {
        StrategyPolicy::Default => "copy-on-write"@,
        StrategyPolicy::Hardlink => "hardlink"@,
        StrategyPolicy::ForceByteCopy => "byte-copy"@,
    }
}

/// [`strategy_name_spec`].
pub fn strategy_name(p: StrategyPolicy) -> (r: String)
    ensures
        r@ == strategy_name_spec(p),
{
    proof {
        reveal_strlit("copy-on-write");
        reveal_strlit("hardlink");
        reveal_strlit("byte-copy");
    }
    match p {
        StrategyPolicy::Default => "copy-on-write".to_string(),
        StrategyPolicy::Hardlink => "hardlink".to_string(),
        StrategyPolicy::ForceByteCopy => "byte-copy".to_string(),
    }
}

/// Placement and verification policy for one hydration run.
#[derive(Debug, Clone, Copy)]
pub struct HydratePolicy {
    /// Re-hash every blob before placement; also bypasses snapshot hits.
    pub verify: bool,
    /// Whether whole-directory snapshot projection is enabled.
    pub snapshots: bool,
    /// Whether incremental snapshot rebuilds are enabled.
    pub v2: bool,
    /// Placement strategy for file-by-file materialization.
    pub strategy: StrategyPolicy,
}

/// Compact hydration request: source, destination, policy.
#[derive(Debug, Clone, Copy)]
pub struct HydrateReq<'a> {
    /// What to hydrate.
    pub src: HydrateSrc<'a>,
    /// Where to put it.
    pub dest: HydrateDest<'a>,
    /// How to place and verify it.
    pub policy: HydratePolicy,
}

/// One file placement handed to the materializer.
#[derive(Debug, Clone, PartialEq, Eq)]
pub struct BatchItem {
    /// The blob file to place.
    pub src: String,
    /// Where it lands.
    pub dest: String,
    /// Mode to give the placed file, when recorded.
    pub mode: Option<u32>,
    /// Recorded size in bytes; 0 when none was recorded.
    pub size: u64,
}

/// What file-by-file placement of an ingested tree does, in order:
/// create the directories, place the files, create the symlinks, then
/// restore directory modes.
#[derive(Debug, Clone, PartialEq, Eq)]
pub struct FallbackPlan {
    /// Destination directories, in ingest order.
    pub dirs: Vec<String>,
    /// File placements, in ingest order.
    pub items: Vec<BatchItem>,
    /// Symlinks: destination and raw target, in ingest order.
    pub links: Vec<(String, String)>,
    /// Directory modes to restore, last-listed directory first so a
    /// parent is restored after its children.
    pub dir_modes: Vec<(String, u32)>,
}

/// The placement of one ingested file.
pub open spec fn item_spec(
    store_root: Seq<char>,
    root: Seq<char>,
    heavy: Seq<char>,
    ing: Ingested,
    f: (String, ContentId),
) -> (Seq<char>, Seq<char>, Option<u32>, u64) {
    (
        object_path_spec(store_root, f.1.0@),
        dest_path_spec(root, heavy, f.0@),
        assoc(keyed_view(ing.modes@), f.0@),
        match assoc(keyed_view(ing.file_sizes@), f.0@) {
            Some(n) => n,
            None => 0,
        },
    )
}

/// A placed file gets the raw mode the ingest recorded for its path,
/// unnormalized, and the recorded size: with the ingest's maps in key
/// order, the placement of a file whose path the modes (sizes) list at
/// position `k` carries exactly that mode (size).
pub proof fn lemma_placement_keeps_recorded_mode(
    store_root: Seq<char>,
    root: Seq<char>,
    heavy: Seq<char>,
    ing: Ingested,
    f: (String, ContentId),
    k: int,
)
    requires
        ing.wf(),
    ensures
        0 <= k < ing.modes@.len() && ing.modes@[k].0@ == f.0@ ==> item_spec(
            store_root,
            root,
            heavy,
            ing,
            f,
        ).2 == Some(ing.modes@[k].1),
        0 <= k < ing.file_sizes@.len() && ing.file_sizes@[k].0@ == f.0@ ==> item_spec(
            store_root,
            root,
            heavy,
            ing,
            f,
        ).3 == ing.file_sizes@[k].1,
{
    if 0 <= k < ing.modes@.len() {
        let kv = keyed_view(ing.modes@);
        assert(kv[k] == (ing.modes@[k].0@, ing.modes@[k].1));
        lemma_assoc_at(kv, k);
    }
    if 0 <= k < ing.file_sizes@.len() {
        let kv = keyed_view(ing.file_sizes@);
        assert(kv[k] == (ing.file_sizes@[k].0@, ing.file_sizes@[k].1));
        lemma_assoc_at(kv, k);
    }
}

/// The directory modes to restore, last-listed directory first; a
/// directory without a recorded mode is left alone.
pub open spec fn mode_restores(
    root: Seq<char>,
    heavy: Seq<char>,
    dirs: Seq<String>,
    dir_modes: Seq<(Seq<char>, u32)>,
) -> Seq<(Seq<char>, u32)>
    decreases dirs.len(),
{
    if dirs.len() == 0 {
        Seq::empty()
    } else {
        let d = dirs.last()@;
        let rest = mode_restores(root, heavy, dirs.drop_last(), dir_modes);
        match assoc(dir_modes, d) {
            Some(m) => seq![(dest_path_spec(root, heavy, d), m)] + rest,
            None => rest,
        }
    }
}

/// Plain view of placement items.
pub open spec fn items_view(v: Seq<BatchItem>) -> Seq<(Seq<char>, Seq<char>, Option<u32>, u64)> {
    v.map_values(|b: BatchItem| (b.src@, b.dest@, b.mode, b.size))
}

/// Plain view of path/mode pairs.
pub open spec fn path_modes_view(v: Seq<(String, u32)>) -> Seq<(Seq<char>, u32)> {
    v.map_values(|p: (String, u32)| (p.0@, p.1))
}

/// Plan file-by-file placement of `ingested` into `worktree_root`:
/// every path is resolved against the heavy directory as
/// [`dest_path_spec`] states, every file is placed from its blob in
/// `store` with its recorded mode and size, and directory modes are
/// restored last-listed first.
pub fn plan_fallback(store: &DiskStore, worktree_root: &str, heavy_rel: &str, ingested: &Ingested) -> (p: FallbackPlan)
    ensures
        p.dirs@.len() == ingested.dirs@.len(),
        forall|i: int|
            0 <= i < p.dirs@.len() ==> (#[trigger] p.dirs@[i])@ == dest_path_spec(
                worktree_root@,
                heavy_rel@,
                ingested.dirs@[i]@,
            ),
        items_view(p.items@) == ingested.files@.map_values(
            |f: (String, ContentId)| item_spec(store.root_spec(), worktree_root@, heavy_rel@, *ingested, f),
        ),
        p.items@.len() == ingested.files@.len(),
        forall|i: int|
            0 <= i < p.items@.len() ==> (#[trigger] p.items@[i]).mode == assoc(
                keyed_view(ingested.modes@),
                ingested.files@[i].0@,
            ),
        forall|i: int, k: int|
            ingested.wf() && 0 <= i < p.items@.len() && 0 <= k < ingested.modes@.len()
                && ingested.modes@[k].0@ == ingested.files@[i].0@ ==> (#[trigger] p.items@[i]).mode
                == Some((#[trigger] ingested.modes@[k]).1),
        forall|i: int, k: int|
            ingested.wf() && 0 <= i < p.items@.len() && 0 <= k < ingested.file_sizes@.len()
                && ingested.file_sizes@[k].0@ == ingested.files@[i].0@ ==> (#[trigger] p.items@[i]).size
                == (#[trigger] ingested.file_sizes@[k]).1,
        p.links@.len() == ingested.symlinks@.len(),
        forall|i: int|
            0 <= i < p.links@.len() ==> (#[trigger] p.links@[i]).0@ == dest_path_spec(
                worktree_root@,
                heavy_rel@,
                ingested.symlinks@[i].0@,
            ) && p.links@[i].1@ == ingested.symlinks@[i].1@,
        path_modes_view(p.dir_modes@) == mode_restores(
            worktree_root@,
            heavy_rel@,
            ingested.dirs@,
            keyed_view(ingested.dir_modes@),
        ),
{
    let mut dirs: Vec<String> = Vec::new();
    for i in 0..ingested.dirs.len()
        invariant
            dirs@.len() == i,
            forall|k: int|
                0 <= k < i ==> (#[trigger] dirs@[k])@ == dest_path_spec(
                    worktree_root@,
                    heavy_rel@,
                    ingested.dirs@[k]@,
                ),
    {
        dirs.push(resolve_dest_path(worktree_root, heavy_rel, ingested.dirs[i].as_str()));
    }
    let ghost want = ingested.files@.map_values(
        |f: (String, ContentId)| item_spec(store.root_spec(), worktree_root@, heavy_rel@, *ingested, f),
    );
    let mut items: Vec<BatchItem> = Vec::new();
    for i in 0..ingested.files.len()
        invariant
            want == ingested.files@.map_values(
                |f: (String, ContentId)| item_spec(store.root_spec(), worktree_root@, heavy_rel@, *ingested, f),
            ),
            items_view(items@) == want.take(i as int),
    {
        let rel = ingested.files[i].0.as_str();
        let size = match lookup(&ingested.file_sizes, rel) {
            Some(n) => n,
            None => 0,
        };
        let item = BatchItem {
            src: store.blob_path(&ingested.files[i].1),
            dest: resolve_dest_path(worktree_root, heavy_rel, rel),
            mode: lookup(&ingested.modes, rel),
            size,
        };
        let ghost prev = items@;
        proof {
            let f = ingested.files@[i as int];
            assert(f.0@ == rel@);
            assert((item.src@, item.dest@, item.mode, item.size) == want[i as int]);
        }
        items.push(item);
        proof {
            assert(items@ == prev.push(item));
            assert(items_view(items@) =~= items_view(prev).push(want[i as int]));
            assert(want.take(i + 1) =~= want.take(i as int).push(want[i as int]));
        }
    }
    assert(want.take(ingested.files.len() as int) =~= want);
    proof {
        assert(items@.len() == items_view(items@).len());
        assert forall|i: int| 0 <= i < items@.len() implies (#[trigger] items@[i]).mode == assoc(
            keyed_view(ingested.modes@),
            ingested.files@[i].0@,
        ) && items@[i].size == match assoc(keyed_view(ingested.file_sizes@), ingested.files@[i].0@) {
            Some(n) => n,
            None => 0,
        } by {
            assert(items_view(items@)[i] == want[i]);
        }
        assert forall|i: int, k: int|
            ingested.wf() && 0 <= i < items@.len() && 0 <= k < ingested.modes@.len()
                && ingested.modes@[k].0@ == ingested.files@[i].0@ implies (#[trigger] items@[i]).mode
                == Some((#[trigger] ingested.modes@[k]).1) by {
            let kv = keyed_view(ingested.modes@);
            assert(kv[k] == (ingested.modes@[k].0@, ingested.modes@[k].1));
            lemma_assoc_at(kv, k);
        }
        assert forall|i: int, k: int|
            ingested.wf() && 0 <= i < items@.len() && 0 <= k < ingested.file_sizes@.len()
                && ingested.file_sizes@[k].0@ == ingested.files@[i].0@ implies (#[trigger] items@[i]).size
                == (#[trigger] ingested.file_sizes@[k]).1 by {
            let kv = keyed_view(ingested.file_sizes@);
            assert(kv[k] == (ingested.file_sizes@[k].0@, ingested.file_sizes@[k].1));
            lemma_assoc_at(kv, k);
        }
    }
    let mut links: Vec<(String, String)> = Vec::new();
    for i in 0..ingested.symlinks.len()
        invariant
            links@.len() == i,
            forall|k: int|
                0 <= k < i ==> (#[trigger] links@[k]).0@ == dest_path_spec(
                    worktree_root@,
                    heavy_rel@,
                    ingested.symlinks@[k].0@,
                ) && links@[k].1@ == ingested.symlinks@[k].1@,
    {
        let dest = resolve_dest_path(worktree_root, heavy_rel, ingested.symlinks[i].0.as_str());
        links.push((dest, ingested.symlinks[i].1.clone()));
    }
    let ghost dm = keyed_view(ingested.dir_modes@);
    let mut modes: Vec<(String, u32)> = Vec::new();
    let mut k: usize = ingested.dirs.len();
    proof {
        assert(ingested.dirs@.take(k as int) =~= ingested.dirs@);
        assert(path_modes_view(modes@) =~= Seq::<(Seq<char>, u32)>::empty());
        let full = mode_restores(worktree_root@, heavy_rel@, ingested.dirs@, dm);
        assert(Seq::<(Seq<char>, u32)>::empty() + full =~= full);
    }
    while k > 0
        invariant
            k <= ingested.dirs@.len(),
            dm == keyed_view(ingested.dir_modes@),
            mode_restores(worktree_root@, heavy_rel@, ingested.dirs@, dm) == path_modes_view(modes@)
                + mode_restores(worktree_root@, heavy_rel@, ingested.dirs@.take(k as int), dm),
        decreases k,
    {
        let ghost before = ingested.dirs@.take(k as int);
        assert(before.drop_last() =~= ingested.dirs@.take(k - 1));
        let d = ingested.dirs[k - 1].as_str();
        match lookup(&ingested.dir_modes, d) {
            Some(m) => {
                modes.push((resolve_dest_path(worktree_root, heavy_rel, d), m));
                proof {
                    assert(path_modes_view(modes@) =~= path_modes_view(modes@.drop_last()).push(
                        (dest_path_spec(worktree_root@, heavy_rel@, d@), m),
                    ));
                }
            },
            None => {},
        }
        k = k - 1;
    }
    assert(ingested.dirs@.take(0) =~= Seq::<String>::empty());
    FallbackPlan { dirs, items, links, dir_modes: modes }
}

/// Outcome of one hydration.
#[derive(Debug, Clone)]
pub enum HydrateOutcome {
    /// Bytes landed.
    Hydrated(HydrationReceipt),
    /// The fast path missed; ingest and retry as a tree.
    NeedIngest {
        /// Diagnostic to print once, never fatal.
        diagnostic: Option<String>,
    },
    /// The fast path failed loudly.
    Failed(String),
}

/// Where an ingested path lands: paths already under the heavy
/// directory (or the directory itself) go under the worktree root as
/// they are, others under the heavy directory.
pub open spec fn dest_path_spec(root: Seq<char>, heavy: Seq<char>, rel: Seq<char>) -> Seq<char> {
    if heavy.len() == 0 || rel == heavy || starts_with_spec(rel, heavy.push('/')) {
        path_join(root, rel)
    } else {
        path_join(path_join(root, heavy), rel)
    }
}

/// [`dest_path_spec`].
pub fn resolve_dest_path(worktree_root: &str, heavy_rel: &str, rel: &str) -> (r: String)
    ensures
        r@ == dest_path_spec(worktree_root@, heavy_rel@, rel@),
{
    let h = chars_of(heavy_rel);
    let r = chars_of(rel);
    let mut pre = h.clone();
    pre.push('/');
    let under = pre.len() <= r.len() && crate::text::chars_eq(&crate::text::slice_chars(&r, 0, pre.len()), &pre);
    proof {
        if starts_with_spec(rel@, heavy_rel@.push('/')) {
            assert(r@.subrange(0, pre@.len() as int) =~= r@.take(pre@.len() as int));
        }
        if under {
            assert(r@.subrange(0, pre@.len() as int) =~= r@.take(pre@.len() as int));
        }
    }
    if h.len() == 0 || crate::text::chars_eq(&r, &h) || under {
        crate::paths::join_path(worktree_root, rel)
    } else {
        let base = crate::paths::join_path(worktree_root, heavy_rel);
        crate::paths::join_path(base.as_str(), rel)
    }
}

/// The blobs a hydration takes references on: the distinct blobs of
/// its files, none once refcounts are no longer written.
pub fn claimed_refs(mode: GcMode, files: &Vec<(String, ContentId)>) -> (r: IdSet)
    ensures
        mode == GcMode::MarkSweepNoRefs ==> r@ == Set::<Seq<u8>>::empty(),
        mode != GcMode::MarkSweepNoRefs ==> r@ == files@.map_values(|p: (String, ContentId)| p.1.0@).to_set(),
{
    let mut r = IdSet::new();
    assert(r@ =~= Set::<Seq<u8>>::empty());
    if mode == GcMode::MarkSweepNoRefs {
        return r;
    }
    let ghost ids = files@.map_values(|p: (String, ContentId)| p.1.0@);
    for i in 0..files.len()
        invariant
            ids == files@.map_values(|p: (String, ContentId)| p.1.0@),
            r@ == ids.take(i as int).to_set(),
    {
        r.insert(files[i].1);
        proof {
            assert(ids.take(i + 1) =~= ids.take(i as int).push(ids[i as int]));
            ids.take(i as int).lemma_push_to_set_commute(ids[i as int]);
            assert(r@ =~= ids.take(i + 1).to_set());
        }
    }
    assert(ids.take(files.len() as int) =~= ids);
    r
}

/// The sum of the recorded file sizes.
pub open spec fn size_sum(s: Seq<(String, u64)>) -> int
    decreases s.len(),
{
    if s.len() == 0 {
        0
    } else {
        size_sum(s.drop_last()) + s.last().1
    }
}

proof fn lemma_size_sum_prefix(s: Seq<(String, u64)>, k: int)
    requires
        0 <= k <= s.len(),
    ensures
        0 <= size_sum(s.take(k)) <= size_sum(s),
    decreases s.len() - k,
{
    if k < s.len() {
        lemma_size_sum_prefix(s, k + 1);
        assert(s.take(k + 1).drop_last() =~= s.take(k));
        lemma_size_sum_nonneg(s.take(k));
    } else {
        assert(s.take(k) =~= s);
        lemma_size_sum_nonneg(s);
    }
}

proof fn lemma_size_sum_nonneg(s: Seq<(String, u64)>)
    ensures
        size_sum(s) >= 0,
    decreases s.len(),
{
    if s.len() > 0 {
        lemma_size_sum_nonneg(s.drop_last());
    }
}

/// Total bytes of an ingest's files.
pub fn total_file_bytes(file_sizes: &Vec<(String, u64)>) -> (r: u64)
    requires
        size_sum(file_sizes@) <= u64::MAX,
    ensures
        r == size_sum(file_sizes@),
{
    let mut sum: u64 = 0;
    for i in 0..file_sizes.len()
        invariant
            size_sum(file_sizes@) <= u64::MAX,
            sum == size_sum(file_sizes@.take(i as int)),
    {
        assert(file_sizes@.take(i + 1).drop_last() =~= file_sizes@.take(i as int));
        proof {
            lemma_size_sum_prefix(file_sizes@, i + 1);
        }
        sum = sum + file_sizes[i].1;
    }
    assert(file_sizes@.take(file_sizes.len() as int) =~= file_sizes@);
    sum
}

/// The diagnostic a snapshot attempt leaves for the fallback path: its
/// fall-back diagnostic or its failure message.
pub fn fallback_diagnostic(outcome: &SnapshotOutcome) -> (r: Option<String>)
    ensures
        match outcome {
            SnapshotOutcome::Hydrated(_) => r is None,
            SnapshotOutcome::FellBack(d) => r == *d,
            SnapshotOutcome::Failed(m) => r == Some(*m),
        },
{
    match outcome {
        SnapshotOutcome::Hydrated(_) => None,
        SnapshotOutcome::FellBack(d) => d.clone(),
        SnapshotOutcome::Failed(m) => Some(m.clone()),
    }
}

impl HydrateOutcome {
    /// What the pinned-lockfile fast path reports for the snapshot
    /// attempt's outcome: a hit is hydrated with the snapshot's files
    /// and no copies, a fall-back asks the caller to ingest and retry
    /// as a tree (carrying its diagnostic), and a failure fails.
    pub fn after_pinned(outcome: SnapshotOutcome, elapsed_ms: u128) -> (r: HydrateOutcome)
        ensures
            match outcome {
                SnapshotOutcome::Hydrated(info) => r matches HydrateOutcome::Hydrated(rec) && rec.strategy@
                    == "snapshot-hit"@ && rec.files_total == info.files && rec.files_copied == 0
                    && rec.bytes_shared == 0 && rec.bytes_copied == 0 && rec.snapshot_hit && rec.elapsed_ms
                    == elapsed_ms && rec.diagnostics@.len() == 0 && rec.v2_cloned == 0 && rec.v2_linked == 0
                    && rec.incremental_fallback_reason is None,
                SnapshotOutcome::FellBack(d) => r matches HydrateOutcome::NeedIngest { diagnostic } && diagnostic
                    == d,
                SnapshotOutcome::Failed(m) => r matches HydrateOutcome::Failed(x) && x == m,
            },
    {
        match outcome {
            SnapshotOutcome::Hydrated(info) => HydrateOutcome::Hydrated(HydrationReceipt::pinned_hit(info.files, elapsed_ms)),
            SnapshotOutcome::FellBack(diagnostic) => HydrateOutcome::NeedIngest { diagnostic },
            SnapshotOutcome::Failed(m) => HydrateOutcome::Failed(m),
        }
    }
}

impl HydrationReceipt {
    /// The receipt of a pinned-lockfile hit: the snapshot's files, no
    /// copies, no diagnostics.
    pub fn pinned_hit(files: usize, elapsed_ms: u128) -> (r: HydrationReceipt)
        ensures
            r.strategy@ == "snapshot-hit"@,
            r.files_total == files,
            r.files_copied == 0,
            r.bytes_shared == 0,
            r.bytes_copied == 0,
            r.snapshot_hit,
            r.elapsed_ms == elapsed_ms,
            r.diagnostics@.len() == 0,
            r.v2_cloned == 0,
            r.v2_linked == 0,
            r.incremental_fallback_reason is None,
    {
        HydrationReceipt {
            strategy: "snapshot-hit".to_string(),
            files_total: files,
            files_copied: 0,
            bytes_shared: 0,
            bytes_copied: 0,
            snapshot_hit: true,
            elapsed_ms,
            diagnostics: Vec::new(),
            v2_cloned: 0,
            v2_linked: 0,
            incremental_fallback_reason: None,
        }
    }

    /// The receipt of a tree served by a snapshot: strategy
    /// `snapshot-<mode>`, every file's bytes shared.
    pub fn projected(info: &SnapshotHydration, files_total: usize, total_bytes: u64, elapsed_ms: u128, diagnostics: Vec<String>) -> (r: HydrationReceipt)
        ensures
            r.strategy@ == "snapshot-"@ + info.mode@,
            r.files_total == files_total,
            r.files_copied == 0,
            r.bytes_shared == total_bytes,
            r.bytes_copied == 0,
            r.snapshot_hit,
            r.elapsed_ms == elapsed_ms,
            r.diagnostics@ == diagnostics@,
            r.v2_cloned == info.cloned_units,
            r.v2_linked == info.linked_files,
            r.incremental_fallback_reason is None,
    {
        let mut s = chars_of("snapshot-");
        crate::text::extend_str(&mut s, info.mode.as_str());
        HydrationReceipt {
            strategy: string_of(&s),
            files_total,
            files_copied: 0,
            bytes_shared: total_bytes,
            bytes_copied: 0,
            snapshot_hit: true,
            elapsed_ms,
            diagnostics,
            v2_cloned: info.cloned_units,
            v2_linked: info.linked_files,
            incremental_fallback_reason: None,
        }
    }

    /// The receipt of file-by-file placement: files copied are those
    /// placed without sharing.
    pub fn placed(
        strategy: String,
        files_total: usize,
        placed: usize,
        shared_cow: usize,
        bytes_shared: u64,
        bytes_copied: u64,
        elapsed_ms: u128,
        diagnostics: Vec<String>,
    ) -> (r: HydrationReceipt)
        ensures
            r.strategy == strategy,
            r.files_total == files_total,
            r.files_copied == if placed > shared_cow { placed - shared_cow } else { 0 },
            r.bytes_shared == bytes_shared,
            r.bytes_copied == bytes_copied,
            !r.snapshot_hit,
            r.elapsed_ms == elapsed_ms,
            r.diagnostics@ == diagnostics@,
            r.v2_cloned == 0,
            r.v2_linked == 0,
            r.incremental_fallback_reason is None,
    {
        HydrationReceipt {
            strategy,
            files_total,
            files_copied: placed.saturating_sub(shared_cow),
            bytes_shared,
            bytes_copied,
            snapshot_hit: false,
            elapsed_ms,
            diagnostics,
            v2_cloned: 0,
            v2_linked: 0,
            incremental_fallback_reason: None,
        }
    }
}

} // verus!
