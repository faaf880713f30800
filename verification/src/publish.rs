//! Publishing a snapshot: the options a publish takes, what it reports,
//! and the plan of an incremental rebuild that turns a clone of an old
//! snapshot's tree into the new one.
//!
//! Staging directories, the atomic rename and the tree operations are
//! the caller's; this module decides what they are applied to.

use vstd::prelude::*;

use crate::idset::IdSet;
use crate::order::{desc_order, stable_desc_order};
use crate::snapdiff::{
    added_pred, deleted_pred, lemma_rel_index, modified_pred, rel_index, utf8_len, SnapshotDiff,
};
use crate::snapshot::{entries_view, rels_increasing, EntryKind, EntryView, Manifest, SnapshotEntry};
use crate::ContentId;

verus! {

/// Phase timings of one snapshot build, in milliseconds.
#[derive(Debug, Clone, Copy, PartialEq, Eq, Structural)]
pub struct SnapshotBuildTiming {
    /// Blob verification before linking into staging.
    pub verify_ms: u64,
    /// Staging-tree construction.
    pub link_train_ms: u64,
    /// Manifest hashing, markers and renames.
    pub publish_ms: u64,
    /// Incremental rebuilds: the one whole-tree clone of the old tree.
    pub clone_units_ms: u64,
    /// Incremental rebuilds: 1 when that clone succeeded, else 0.
    pub clone_units: usize,
    /// Incremental rebuilds: files freshly linked from blobs.
    pub linked_files: usize,
}

impl Default for SnapshotBuildTiming {
    fn default() -> (t: SnapshotBuildTiming)
        ensures
            t == (SnapshotBuildTiming {
                verify_ms: 0,
                link_train_ms: 0,
                publish_ms: 0,
                clone_units_ms: 0,
                clone_units: 0,
                linked_files: 0,
            }),
    {
        SnapshotBuildTiming {
            verify_ms: 0,
            link_train_ms: 0,
            publish_ms: 0,
            clone_units_ms: 0,
            clone_units: 0,
            linked_files: 0,
        }
    }
}

/// What a publish did with its staged tree.
#[derive(Debug, Clone, Copy, PartialEq, Eq, Structural)]
pub enum PublishOutcome {
    /// Our staged tree won the rename.
    Published,
    /// Another writer's valid snapshot was already there.
    WinnerValid,
    /// Another writer's directory is there but not valid; left alone.
    WinnerInvalid,
}

/// What a publish did, plus how long its phases took.
#[derive(Debug, Clone, Copy, PartialEq, Eq, Structural)]
pub struct PublishReceipt {
    /// What happened to the snapshot tree.
    pub outcome: PublishOutcome,
    /// Phase timings.
    pub timing: SnapshotBuildTiming,
}

/// Why a publish failed.
#[derive(Debug)]
pub enum BuildError {
    /// The blob vanished between ingest and link: a sweep raced us.
    MissingBlob(ContentId),
    /// Anything fatal.
    Fatal(String),
    /// A store-level failure.
    Io(crate::Error),
}

impl BuildError {
    /// The error's message: a vanished blob names its id, a fatal error
    /// is its own message, and a store failure reads as the store
    /// error does.
    pub fn to_string(&self) -> (s: String)
        ensures
            match self {
                BuildError::MissingBlob(id) => s@ == "content "@ + id.hex() + " vanished during snapshot build"@,
                BuildError::Fatal(m) => s@ == m@,
                BuildError::Io(crate::Error::Corrupted(id)) => s@ == "store content "@ + id.hex()
                    + " failed hash verification"@,
                BuildError::Io(crate::Error::UnknownContent(id)) => s@ == "content "@ + id.hex() + " not in store"@,
                BuildError::Io(crate::Error::RefCountUnderflow(id)) => s@ == "reference count underflow for "@
                    + id.hex(),
                BuildError::Io(crate::Error::Io(_)) => s@.len() >= 16 && s@.take(16) == "store io error: "@,
            },
    {
        match self {
            BuildError::MissingBlob(id) => crate::text::cat3(
                "content ",
                id.to_string().as_str(),
                " vanished during snapshot build",
            ),
            BuildError::Fatal(m) => m.clone(),
            BuildError::Io(e) => e.to_string(),
        }
    }
}

/// Options controlling snapshot publication.
#[derive(Debug, Clone, Copy, PartialEq, Eq)]
pub struct PublishOptions {
    /// Lockfile hash recorded in the manifest header.
    pub lockfile_hash: Option<ContentId>,
    /// Old snapshot to rebuild incrementally from.
    pub base_snapshot: Option<ContentId>,
    /// Full read-and-hash verification of every blob.
    pub paranoid: bool,
}

impl Default for PublishOptions {
    fn default() -> (o: PublishOptions)
        ensures
            o.lockfile_hash is None,
            o.base_snapshot is None,
            !o.paranoid,
    {
        PublishOptions { lockfile_hash: None, base_snapshot: None, paranoid: false }
    }
}

impl PublishOptions {
    /// A full build with no lockfile and standard verification.
    pub fn new() -> (o: PublishOptions)
        ensures
            o.lockfile_hash is None,
            o.base_snapshot is None,
            !o.paranoid,
    {
        PublishOptions::default()
    }

    /// Set paranoid verification.
    pub fn paranoid(self, paranoid: bool) -> (o: PublishOptions)
        ensures
            o == (PublishOptions { paranoid, ..self }),
    {
        PublishOptions { paranoid, ..self }
    }

    /// Set the lockfile hash.
    pub fn lockfile_hash(self, lockfile_hash: Option<ContentId>) -> (o: PublishOptions)
        ensures
            o == (PublishOptions { lockfile_hash, ..self }),
    {
        PublishOptions { lockfile_hash, ..self }
    }

    /// Set the base snapshot of an incremental rebuild.
    pub fn base_snapshot(self, base_snapshot: Option<ContentId>) -> (o: PublishOptions)
        ensures
            o == (PublishOptions { base_snapshot, ..self }),
    {
        PublishOptions { base_snapshot, ..self }
    }
}

/// What a rename that lost to an existing directory means: use the
/// winner when it is a valid snapshot, else leave it alone.
pub fn collision_outcome(winner_valid: bool) -> (o: PublishOutcome)
    ensures
        o == if winner_valid { PublishOutcome::WinnerValid } else { PublishOutcome::WinnerInvalid },
{
    if winner_valid {
        PublishOutcome::WinnerValid
    } else {
        PublishOutcome::WinnerInvalid
    }
}

/// The distinct blobs some entries name, whose sizes make up the
/// manifest's total.
pub fn entry_blobs(entries: &Vec<SnapshotEntry>) -> (r: IdSet)
    ensures
        r@ == crate::gc::manifest_blobs(entries_view(entries@)),
{
    let ghost es = entries_view(entries@);
    let mut r = IdSet::new();
    let mut j: usize = 0;
    assert(es.take(0) =~= Seq::<EntryView>::empty());
    assert(r@ =~= crate::gc::manifest_blobs(es.take(0)));
    while j < entries.len()
        invariant
            j <= es.len(),
            es == entries_view(entries@),
            r@ == crate::gc::manifest_blobs(es.take(j as int)),
        decreases es.len() - j,
    {
        assert(es.take(j + 1).drop_last() =~= es.take(j as int));
        assert(es[j as int] == entries[j as int]@);
        match entries[j].blob {
            Some(b) => {
                r.insert(b);
            },
            None => {},
        }
        assert(r@ =~= crate::gc::manifest_blobs(es.take(j + 1)));
        j = j + 1;
    }
    assert(es.take(j as int) =~= es);
    r
}

// ---------------------------------------------------------------------------
// Incremental rebuilds
// ---------------------------------------------------------------------------

/// A modified file whose blob is unchanged only needs its mode set.
pub open spec fn mode_only(old: Seq<EntryView>, e: EntryView) -> bool {
    e.kind == EntryKind::File && old[rel_index(old, e.rel)].blob == e.blob
}

pub open spec fn byte_lens(s: Seq<EntryView>) -> Seq<u128> {
    s.map_values(|e: EntryView| utf8_len(e.rel) as u128)
}

/// How many of these are regular files.
pub open spec fn file_count(s: Seq<EntryView>) -> nat
    decreases s.len(),
{
    if s.len() == 0 {
        0
    } else {
        file_count(s.drop_last()) + if s.last().kind == EntryKind::File { 1nat } else { 0nat }
    }
}

/// The modified entries that are placed afresh.
pub open spec fn replaced(old: Seq<EntryView>, mods: Seq<EntryView>) -> Seq<EntryView> {
    mods.filter(|e: EntryView| !mode_only(old, e))
}

/// The work of turning a clone of the old snapshot's tree into the new
/// tree.
#[derive(Debug)]
pub struct IncrementalPlan {
    /// Entries to delete, longest path (in bytes) first, so a directory
    /// goes before its own entries come up.
    pub deletions: Vec<SnapshotEntry>,
    /// Modified entries in order, each with whether only its mode
    /// changes (a file whose blob is the same); the others are removed
    /// and placed afresh.
    pub modified: Vec<(SnapshotEntry, bool)>,
    /// Entries to place that the old tree lacks.
    pub additions: Vec<SnapshotEntry>,
    /// Files freshly linked from blobs: the replaced and added files.
    pub linked_files: usize,
}

pub open spec fn flagged_view(s: Seq<(SnapshotEntry, bool)>) -> Seq<(EntryView, bool)> {
    s.map_values(|p: (SnapshotEntry, bool)| (p.0@, p.1))
}

proof fn lemma_file_count_bound(s: Seq<EntryView>)
    ensures
        file_count(s) <= s.len(),
    decreases s.len(),
{
    if s.len() > 0 {
        lemma_file_count_bound(s.drop_last());
    }
}

/// Plan an incremental rebuild of `new` from a clone of `old`'s tree.
pub fn plan_incremental(old: &Manifest, new: &Manifest) -> (p: IncrementalPlan)
    requires
        rels_increasing(old@.entries),
        rels_increasing(new@.entries),
    ensures
        ({
            let o = old@.entries;
            let n = new@.entries;
            let dels = o.filter(deleted_pred(n));
            let mods = n.filter(modified_pred(o));
            &&& exists|ord: Seq<usize>|
                desc_order(byte_lens(dels), ord) && entries_view(p.deletions@) == ord.map_values(
                    |k: usize| dels[k as int],
                )
            &&& flagged_view(p.modified@) == mods.map_values(|e: EntryView| (e, mode_only(o, e)))
            &&& entries_view(p.additions@) == n.filter(added_pred(o))
            &&& p.linked_files == file_count(replaced(o, mods)) + file_count(n.filter(added_pred(o)))
        }),
{
    let ghost o = old@.entries;
    let ghost n = new@.entries;
    let diff = SnapshotDiff::compute(old.entries.as_slice(), new.entries.as_slice());
    let ghost dels = entries_view(diff.deleted@);
    let ghost mods = entries_view(diff.modified@);
    // Deletions, longest path first.
    let mut keys: Vec<u128> = Vec::new();
    for i in 0..diff.deleted.len()
        invariant
            dels == entries_view(diff.deleted@),
            keys@ == byte_lens(dels).take(i as int),
    {
        let len = crate::snapdiff::utf8_len_exec(diff.deleted[i].rel.as_str());
        keys.push(len);
        assert(keys@ =~= byte_lens(dels).take(i + 1));
    }
    assert(keys@ =~= byte_lens(dels));
    let ord = stable_desc_order(&keys);
    let mut deletions: Vec<SnapshotEntry> = Vec::new();
    for i in 0..ord.len()
        invariant
            dels == entries_view(diff.deleted@),
            desc_order(byte_lens(dels), ord@),
            entries_view(deletions@) == ord@.take(i as int).map_values(|k: usize| dels[k as int]),
    {
        let k = ord[i];
        assert(k < dels.len());
        let e = diff.deleted[k].clone();
        let ghost before = entries_view(deletions@);
        deletions.push(e);
        assert(entries_view(deletions@) =~= before.push(dels[k as int]));
        assert(ord@.take(i + 1) =~= ord@.take(i as int).push(k));
        assert(entries_view(deletions@) =~= ord@.take(i + 1).map_values(|k: usize| dels[k as int]));
    }
    assert(ord@.take(ord@.len() as int) =~= ord@);
    // Modified entries, with their mode-only flag.
    let mut modified: Vec<(SnapshotEntry, bool)> = Vec::new();
    let mut linked: usize = 0;
    let ghost keep = |e: EntryView| !mode_only(o, e);
    for i in 0..diff.modified.len()
        invariant
            o == old@.entries,
            n == new@.entries,
            rels_increasing(old@.entries),
            mods == entries_view(diff.modified@),
            mods == n.filter(modified_pred(o)),
            keep == (|e: EntryView| !mode_only(o, e)),
            flagged_view(modified@) == mods.take(i as int).map_values(|e: EntryView| (e, mode_only(o, e))),
            linked == file_count(mods.take(i as int).filter(keep)),
            linked <= i,
    {
        let e = diff.modified[i].clone();
        assert(e@ == mods[i as int]);
        proof {
            n.lemma_filter_pred(modified_pred(o), i as int);
            assert(modified_pred(o)(e@));
            lemma_rel_index(o, e@.rel);
        }
        let only_mode = match e.kind {
            EntryKind::File => blob_of_rel(&old.entries, e.rel.as_str()) == e.blob,
            _ => false,
        };
        proof {
            if e@.kind == EntryKind::File {
                assert(old.entries@[rel_index(o, e@.rel)]@ == o[rel_index(o, e@.rel)]);
            }
            assert(only_mode == mode_only(o, e@));
            mods.take(i as int).lemma_filter_push(mods[i as int], keep);
            assert(mods.take(i as int).push(mods[i as int]) =~= mods.take(i + 1));
        }
        if !only_mode && e.kind == EntryKind::File {
            linked = linked + 1;
        }
        let ghost before = flagged_view(modified@);
        modified.push((e, only_mode));
        assert(flagged_view(modified@) =~= before.push((mods[i as int], mode_only(o, mods[i as int]))));
        assert(flagged_view(modified@) =~= mods.take(i + 1).map_values(|e: EntryView| (e, mode_only(o, e))));
        proof {
            let t = mods.take(i + 1).filter(keep);
            if keep(mods[i as int]) {
                assert(t.drop_last() =~= mods.take(i as int).filter(keep));
            }
            lemma_file_count_bound(mods.take(i + 1).filter(keep));
        }
    }
    assert(mods.take(diff.modified.len() as int) =~= mods);
    assert(mods.take(diff.modified.len() as int).filter(keep) =~= replaced(o, mods));
    let total = new.entries.len();
    let additions = diff.added;
    let ghost add_v = entries_view(additions@);
    proof {
        assert(add_v == n.filter(added_pred(o)));
        lemma_disjoint_filters(n, modified_pred(o), added_pred(o));
        lemma_file_count_bound(replaced(o, mods));
        lemma_file_count_bound(add_v);
        lemma_filter_len(mods, keep);
    }
    for i in 0..additions.len()
        invariant
            add_v == entries_view(additions@),
            linked == file_count(replaced(o, mods)) + file_count(add_v.take(i as int)),
            file_count(replaced(o, mods)) <= mods.len(),
            file_count(add_v) <= add_v.len(),
            mods.len() + add_v.len() <= total,
            total == n.len(),
    {
        assert(add_v.take(i + 1).drop_last() =~= add_v.take(i as int));
        assert(add_v[i as int] == additions[i as int]@);
        proof {
            lemma_file_count_prefix(add_v, i + 1);
        }
        if additions[i].kind == EntryKind::File {
            linked = linked + 1;
        }
    }
    assert(add_v.take(additions.len() as int) =~= add_v);
    proof {
        assert(entries_view(deletions@) == ord@.map_values(|k: usize| dels[k as int]));
        assert(desc_order(byte_lens(dels), ord@));
    }
    IncrementalPlan { deletions, modified, additions, linked_files: linked }
}

proof fn lemma_file_count_prefix(s: Seq<EntryView>, k: int)
    requires
        0 <= k <= s.len(),
    ensures
        file_count(s.take(k)) <= file_count(s),
    decreases s.len() - k,
{
    if k < s.len() {
        lemma_file_count_prefix(s, k + 1);
        assert(s.take(k + 1).drop_last() =~= s.take(k));
    } else {
        assert(s.take(k) =~= s);
    }
}

proof fn lemma_filter_len<A>(s: Seq<A>, p: spec_fn(A) -> bool)
    ensures
        s.filter(p).len() <= s.len(),
    decreases s.len(),
{
    broadcast use vstd::seq_lib::group_filter_ensures;
    if s.len() > 0 {
        lemma_filter_len(s.drop_last(), p);
        s.drop_last().lemma_filter_push(s.last(), p);
        assert(s.drop_last().push(s.last()) =~= s);
    }
}

/// Two predicates that never hold together pick at most the whole
/// sequence between them.
proof fn lemma_disjoint_filters(s: Seq<EntryView>, p: spec_fn(EntryView) -> bool, q: spec_fn(EntryView) -> bool)
    requires
        forall|e: EntryView| !(#[trigger] p(e) && q(e)),
    ensures
        s.filter(p).len() + s.filter(q).len() <= s.len(),
    decreases s.len(),
{
    if s.len() > 0 {
        lemma_disjoint_filters(s.drop_last(), p, q);
        s.drop_last().lemma_filter_push(s.last(), p);
        s.drop_last().lemma_filter_push(s.last(), q);
        assert(s.drop_last().push(s.last()) =~= s);
    }
}

/// The blob of the entry holding `rel` (the first such entry), if any.
fn blob_of_rel(entries: &Vec<SnapshotEntry>, rel: &str) -> (r: Option<ContentId>)
    ensures
        ({
            let es = entries_view(entries@);
            let k = rel_index(es, rel@);
            &&& k >= 0 ==> match r {
                Some(b) => es[k].blob == Some(b.0@),
                None => es[k].blob is None,
            }
            &&& k < 0 ==> r is None
        }),
{
    let ghost es = entries_view(entries@);
    let mut i: usize = 0;
    proof {
        lemma_rel_index(es, rel@);
    }
    while i < entries.len()
        invariant
            i <= es.len(),
            es == entries_view(entries@),
            forall|j: int| 0 <= j < i ==> (#[trigger] es[j]).rel != rel@,
        decreases es.len() - i,
    {
        assert(es[i as int] == entries[i as int]@);
        if crate::text::str_eq(entries[i].rel.as_str(), rel) {
            proof {
                lemma_rel_index(es, rel@);
                let k = rel_index(es, rel@);
                assert(k == i) by {
                    if k < i {
                        assert(es[k].rel == rel@);
                    }
                }
            }
            return entries[i].blob;
        }
        i = i + 1;
    }
    proof {
        lemma_rel_index(es, rel@);
    }
    None
}

} // verus!
