//! Whole-directory snapshot hydration: the manifest a heavy directory
//! projects to, and the decisions taken while serving it from a
//! published snapshot. Cloning trees and probing filesystems belong to
//! the caller.

use vstd::prelude::*;

use crate::ingest::{
    assoc, entry_dirs, files_view, keyed_view, link_entry, links_view, lookup, strings_view,
    strip_heavy, strip_under, under, unique_size, unique_total,
};
use crate::publish::{file_count, BuildError, SnapshotBuildTiming};
use crate::snapshot::{
    all_entries_ok, entries_view, manifest_wf, normalized_mode_spec, rels_distinct, EntryKind,
    EntryView, Manifest, SnapshotEntry, DIR_MODE, PLAIN_FILE_MODE,
};
use crate::text::chars_of;
use crate::ContentId;

verus! {

/// One heavy directory hydrated through a snapshot.
#[derive(Debug, Clone)]
pub struct SnapshotHydration {
    /// Manifest hash of the snapshot that was cloned.
    pub hash: ContentId,
    /// Regular files the snapshot carried.
    pub files: usize,
    /// `"hit"` (an existing snapshot), `"build"` (built and published),
    /// or `"v2"` (rebuilt incrementally from an older snapshot).
    pub mode: String,
    /// 1 when an incremental rebuild cloned the old tree, else 0.
    pub cloned_units: usize,
    /// Files an incremental rebuild linked from blobs.
    pub linked_files: usize,
    /// Milliseconds spent looking up published snapshots.
    pub lookup_ms: u128,
    /// Milliseconds spent cloning the tree out.
    pub clonefile_ms: u128,
    /// Build timings when this run built the snapshot.
    pub build: Option<SnapshotBuildTiming>,
}

/// Result of attempting the snapshot path for one heavy directory.
#[derive(Debug)]
pub enum SnapshotOutcome {
    /// Hydrated with one recursive clone of a published snapshot.
    Hydrated(SnapshotHydration),
    /// The snapshot path could not serve this directory; place files
    /// one by one instead. Carries a diagnostic when there is one.
    FellBack(Option<String>),
    /// A failure that must fail the create.
    Failed(String),
}

/// The decisions of whole-directory snapshot hydration.
pub struct SnapshotProjectionEngine;

/// A directory's projected entry: always the canonical directory mode.
pub open spec fn projected_dir(heavy: Seq<char>, d: Seq<char>) -> EntryView {
    EntryView { rel: strip_under(heavy, d), kind: EntryKind::Dir, mode: DIR_MODE, blob: None, target: None }
}

/// A file's projected entry: its recorded mode normalized, 0o644 when
/// none was recorded.
pub open spec fn projected_file(heavy: Seq<char>, modes: Seq<(Seq<char>, u32)>, f: (Seq<char>, Seq<u8>)) -> EntryView {
    EntryView {
        rel: strip_under(heavy, f.0),
        kind: EntryKind::File,
        mode: normalized_mode_spec(
            match assoc(modes, f.0) {
                Some(m) => m,
                None => PLAIN_FILE_MODE,
            },
        ),
        blob: Some(f.1),
        target: None,
    }
}

/// Every projected path lies under the heavy directory.
pub open spec fn projection_ok(
    dirs: Seq<Seq<char>>,
    files: Seq<(Seq<char>, Seq<u8>)>,
    links: Seq<(Seq<char>, Seq<char>)>,
    heavy: Seq<char>,
) -> bool {
    &&& forall|i: int| 0 <= i < dirs.len() && dirs[i] != heavy ==> under(heavy, #[trigger] dirs[i])
    &&& forall|i: int| 0 <= i < files.len() ==> under(heavy, (#[trigger] files[i]).0)
    &&& forall|i: int| 0 <= i < links.len() ==> under(heavy, (#[trigger] links[i]).0)
}

/// The projected entries: directories, then files, then symlinks.
pub open spec fn projection_entries(
    dirs: Seq<Seq<char>>,
    files: Seq<(Seq<char>, Seq<u8>)>,
    links: Seq<(Seq<char>, Seq<char>)>,
    modes: Seq<(Seq<char>, u32)>,
    heavy: Seq<char>,
) -> Seq<EntryView> {
    entry_dirs(dirs, heavy).map_values(|d: Seq<char>| projected_dir(heavy, d)) + files.map_values(
        |f: (Seq<char>, Seq<u8>)| projected_file(heavy, modes, f),
    ) + links.map_values(|l: (Seq<char>, Seq<char>)| link_entry(heavy, l))
}

impl SnapshotProjectionEngine {
    /// The manifest entries of a heavy directory's ingested content,
    /// relative to the directory itself; refused when a path lies
    /// outside it.
    pub fn manifest_entries(
        dirs: &Vec<String>,
        files: &Vec<(String, ContentId)>,
        symlinks: &Vec<(String, String)>,
        modes: &Vec<(String, u32)>,
        heavy_rel: &str,
    ) -> (r: Result<Vec<SnapshotEntry>, String>)
        ensures
            r is Ok <==> projection_ok(strings_view(dirs@), files_view(files@), links_view(symlinks@), heavy_rel@),
            r matches Ok(es) ==> entries_view(es@) == projection_entries(
                strings_view(dirs@),
                files_view(files@),
                links_view(symlinks@),
                keyed_view(modes@),
                heavy_rel@,
            ),
    {
        let heavy = chars_of(heavy_rel);
        let ghost dv = strings_view(dirs@);
        let ghost fv = files_view(files@);
        let ghost lv = links_view(symlinks@);
        let ghost mv = keyed_view(modes@);
        let ghost keep = |d: Seq<char>| d != heavy_rel@;
        let mut entries: Vec<SnapshotEntry> = Vec::new();
        let mut i: usize = 0;
        assert(dv.take(0).filter(keep) =~= Seq::<Seq<char>>::empty());
        while i < dirs.len()
            invariant
                i <= dv.len(),
                dv == strings_view(dirs@),
                heavy@ == heavy_rel@,
                keep == (|d: Seq<char>| d != heavy_rel@),
                forall|k: int| 0 <= k < i && dv[k] != heavy_rel@ ==> under(heavy_rel@, #[trigger] dv[k]),
                entries_view(entries@) == dv.take(i as int).filter(keep).map_values(
                    |d: Seq<char>| projected_dir(heavy_rel@, d),
                ),
            decreases dv.len() - i,
        {
            proof {
                dv.take(i as int).lemma_filter_push(dv[i as int], keep);
                assert(dv.take(i as int).push(dv[i as int]) =~= dv.take(i + 1));
            }
            let d = dirs[i].as_str();
            assert(d@ == dv[i as int]);
            if !crate::text::str_eq(d, heavy_rel) {
                let rel = match strip_heavy(&heavy, d) {
                    Some(rel) => rel,
                    None => {
                        return Err(crate::text::cat4(
                        "ingested path ",
                        crate::text::debug_quote(d).as_str(),
                        " lies outside ",
                        crate::text::debug_quote(heavy_rel).as_str(),
                    ));
                    },
                };
                let ghost before = entries_view(entries@);
                entries.push(SnapshotEntry::dir(rel.as_str()));
                assert(entries_view(entries@) =~= before.push(projected_dir(heavy_rel@, dv[i as int])));
            }
            assert(entries_view(entries@) =~= dv.take(i + 1).filter(keep).map_values(
                |d: Seq<char>| projected_dir(heavy_rel@, d),
            ));
            i = i + 1;
        }
        assert(dv.take(i as int) =~= dv);
        let ghost dir_part = entries_view(entries@);
        let mut j: usize = 0;
        while j < files.len()
            invariant
                j <= fv.len(),
                fv == files_view(files@),
                mv == keyed_view(modes@),
                heavy@ == heavy_rel@,
                forall|k: int| 0 <= k < j ==> under(heavy_rel@, (#[trigger] fv[k]).0),
                entries_view(entries@) == dir_part + fv.take(j as int).map_values(
                    |f: (Seq<char>, Seq<u8>)| projected_file(heavy_rel@, mv, f),
                ),
            decreases fv.len() - j,
        {
            let path = files[j].0.as_str();
            let id = files[j].1;
            assert(fv[j as int] == (path@, id.0@));
            let rel = match strip_heavy(&heavy, path) {
                Some(rel) => rel,
                None => {
                    return Err(crate::text::cat4(
                        "ingested path ",
                        crate::text::debug_quote(path).as_str(),
                        " lies outside ",
                        crate::text::debug_quote(heavy_rel).as_str(),
                    ));
                },
            };
            let mode = match lookup(modes, path) {
                Some(m) => m,
                None => PLAIN_FILE_MODE,
            };
            let ghost before = entries_view(entries@);
            entries.push(SnapshotEntry::file(rel.as_str(), id, mode));
            assert(entries_view(entries@) =~= before.push(projected_file(heavy_rel@, mv, fv[j as int])));
            assert(fv.take(j + 1) =~= fv.take(j as int).push(fv[j as int]));
            assert(entries_view(entries@) =~= dir_part + fv.take(j + 1).map_values(
                |f: (Seq<char>, Seq<u8>)| projected_file(heavy_rel@, mv, f),
            ));
            j = j + 1;
        }
        assert(fv.take(j as int) =~= fv);
        let ghost file_part = entries_view(entries@);
        let mut k: usize = 0;
        while k < symlinks.len()
            invariant
                k <= lv.len(),
                lv == links_view(symlinks@),
                heavy@ == heavy_rel@,
                forall|q: int| 0 <= q < k ==> under(heavy_rel@, (#[trigger] lv[q]).0),
                entries_view(entries@) == file_part + lv.take(k as int).map_values(
                    |l: (Seq<char>, Seq<char>)| link_entry(heavy_rel@, l),
                ),
            decreases lv.len() - k,
        {
            let path = symlinks[k].0.as_str();
            let target = symlinks[k].1.as_str();
            assert(lv[k as int] == (path@, target@));
            let rel = match strip_heavy(&heavy, path) {
                Some(rel) => rel,
                None => {
                    return Err(crate::text::cat4(
                        "ingested path ",
                        crate::text::debug_quote(path).as_str(),
                        " lies outside ",
                        crate::text::debug_quote(heavy_rel).as_str(),
                    ));
                },
            };
            let ghost before = entries_view(entries@);
            entries.push(SnapshotEntry::symlink(rel.as_str(), target));
            assert(entries_view(entries@) =~= before.push(link_entry(heavy_rel@, lv[k as int])));
            assert(lv.take(k + 1) =~= lv.take(k as int).push(lv[k as int]));
            assert(entries_view(entries@) =~= file_part + lv.take(k + 1).map_values(
                |l: (Seq<char>, Seq<char>)| link_entry(heavy_rel@, l),
            ));
            k = k + 1;
        }
        assert(lv.take(k as int) =~= lv);
        assert(entries_view(entries@) =~= projection_entries(dv, fv, lv, mv, heavy_rel@));
        Ok(entries)
    }

    /// The manifest a heavy directory projects to: its entries, the
    /// lockfile hash, and the total size of its distinct blobs.
    pub fn project_manifest(
        dirs: &Vec<String>,
        files: &Vec<(String, ContentId)>,
        file_sizes: &Vec<(String, u64)>,
        symlinks: &Vec<(String, String)>,
        modes: &Vec<(String, u32)>,
        heavy_rel: &str,
        lockfile_hash: Option<ContentId>,
    ) -> (r: Result<Manifest, String>)
        requires
            unique_total(files_view(files@), keyed_view(file_sizes@), Set::empty()) <= u64::MAX,
        ensures
            ({
                let es = projection_entries(
                    strings_view(dirs@),
                    files_view(files@),
                    links_view(symlinks@),
                    keyed_view(modes@),
                    heavy_rel@,
                );
                &&& r is Ok <==> projection_ok(
                    strings_view(dirs@),
                    files_view(files@),
                    links_view(symlinks@),
                    heavy_rel@,
                ) && all_entries_ok(es) && rels_distinct(es)
                &&& r matches Ok(m) ==> manifest_wf(m@) && m@.entries.to_multiset() == es.to_multiset()
                    && m.lockfile_hash == lockfile_hash && m.total_size == unique_total(
                    files_view(files@),
                    keyed_view(file_sizes@),
                    Set::empty(),
                )
            }),
    {
        let entries = match Self::manifest_entries(dirs, files, symlinks, modes, heavy_rel) {
            Ok(es) => es,
            Err(m) => {
                return Err(m);
            },
        };
        let total = unique_size(files, file_sizes);
        Manifest::new_with_lockfile_and_size(entries, lockfile_hash, total)
    }

    /// A pinned-lockfile hit still fits the source when its heavy
    /// directory was not modified more than a second after the recorded
    /// publish (a record without a time always fits).
    pub fn lockfile_hit_fresh(recorded_mtime: u64, src_mtime: u64) -> (b: bool)
        requires
            recorded_mtime < u64::MAX,
        ensures
            b == !(recorded_mtime > 0 && src_mtime > recorded_mtime + 1),
    {
        !(recorded_mtime > 0 && src_mtime > recorded_mtime + 1)
    }

    /// An incremental rebuild is worth trying when the manifest is not
    /// empty and fewer than half its entries changed.
    pub fn incremental_worthwhile(changed: usize, total: usize) -> (b: bool)
        requires
            changed * 2 <= usize::MAX,
        ensures
            b == (total != 0 && changed * 2 < total),
    {
        total != 0 && changed * 2 < total
    }

    /// The regular files a snapshot carries.
    pub fn file_count(m: &Manifest) -> (n: usize)
        ensures
            n == file_count(m@.entries),
    {
        let ghost es = m@.entries;
        let mut n: usize = 0;
        for i in 0..m.entries.len()
            invariant
                es == m@.entries,
                n == file_count(es.take(i as int)),
                n <= i,
        {
            assert(es.take(i + 1).drop_last() =~= es.take(i as int));
            assert(es[i as int] == m.entries[i as int]@);
            if m.entries[i].kind == EntryKind::File {
                n = n + 1;
            }
        }
        assert(es.take(m.entries.len() as int) =~= es);
        n
    }

    /// The source path to re-store a vanished blob from: the first
    /// ingested file with that content.
    pub fn heal_source(files: &Vec<(String, ContentId)>, blob: &ContentId) -> (r: Option<String>)
        ensures
            match r {
                Some(p) => exists|i: int|
                    0 <= i < files@.len() && files@[i].0@ == p@ && files@[i].1.0@ == blob.0@ && forall|k: int|
                        0 <= k < i ==> #[trigger] files@[k].1.0@ != blob.0@,
                None => forall|k: int| 0 <= k < files@.len() ==> #[trigger] files@[k].1.0@ != blob.0@,
            },
    {
        let mut i: usize = 0;
        while i < files.len()
            invariant
                i <= files@.len(),
                forall|k: int| 0 <= k < i ==> #[trigger] files@[k].1.0@ != blob.0@,
            decreases files@.len() - i,
        {
            if files[i].1 == *blob {
                let p = files[i].0.clone();
                return Some(p);
            }
            i = i + 1;
        }
        None
    }

    /// After a failed publish: the blob to re-store and retry once when
    /// it vanished and has not been healed yet; `None` gives up.
    pub fn heal_retry(healed: bool, err: &BuildError) -> (r: Option<ContentId>)
        ensures
            match err {
                BuildError::MissingBlob(b) => r == if healed { None } else { Some(*b) },
                _ => r is None,
            },
    {
        match err {
            BuildError::MissingBlob(b) => {
                if healed {
                    None
                } else {
                    Some(*b)
                }
            },
            _ => None,
        }
    }

    /// How a directory served by a fresh publish is reported: `"v2"`
    /// after an incremental rebuild, else `"build"`.
    pub fn build_mode(incremental: bool) -> (s: String)
        ensures
            s@ == if incremental { "v2"@ } else { "build"@ },
    {
        if incremental {
            "v2".to_string()
        } else {
            "build".to_string()
        }
    }
}

} // verus!
