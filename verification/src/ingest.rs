//! What one ingested tree contributed to the store, and the snapshot
//! manifest it converts to.
//!
//! The walk itself (reading directories, stat-ing and hashing files)
//! belongs to the caller; every map below is given in increasing key
//! order, as an ordered map iterates it.

use vstd::prelude::*;

use crate::idset::IdSet;
use crate::order::{chars_lt, lemma_chars_order};
use crate::snapshot::{
    all_entries_ok, entries_view, manifest_wf, normalized_mode_spec, rels_distinct, EntryKind,
    EntryView, Manifest, ManifestView, SnapshotEntry,
};
use crate::text::{chars_of, starts_with_spec, string_of};
use crate::ContentId;

verus! {

/// Everything one ingested tree contributed to the store. Paths are
/// relative to the source root.
#[derive(Debug, Clone, PartialEq, Eq)]
pub struct Ingested {
    /// Directory paths to recreate even when empty.
    pub dirs: Vec<String>,
    /// Directory path -> on-disk mode (`& 0o7777`).
    pub dir_modes: Vec<(String, u32)>,
    /// File path -> stored content address.
    pub files: Vec<(String, ContentId)>,
    /// File path -> size in bytes.
    pub file_sizes: Vec<(String, u64)>,
    /// Symlink path -> raw target.
    pub symlinks: Vec<(String, String)>,
    /// File path -> on-disk mode (`& 0o7777`).
    pub modes: Vec<(String, u32)>,
}

/// The value recorded for `k`: the first pair with that key.
pub open spec fn assoc<V>(s: Seq<(Seq<char>, V)>, k: Seq<char>) -> Option<V>
    decreases s.len(),
{
    if s.len() == 0 {
        None
    } else if s[0].0 == k {
        Some(s[0].1)
    } else {
        assoc(s.drop_first(), k)
    }
}

/// The pairs are in strictly increasing key order, as an ordered map
/// yields them; so no key occurs twice.
pub open spec fn keys_increasing<V>(s: Seq<(Seq<char>, V)>) -> bool {
    forall|i: int, j: int| 0 <= i < j < s.len() ==> chars_lt(#[trigger] s[i].0, #[trigger] s[j].0)
}

/// With keys in strictly increasing order, the value recorded for the
/// key at position `i` is the one stored there.
pub proof fn lemma_assoc_at<V>(s: Seq<(Seq<char>, V)>, i: int)
    requires
        keys_increasing(s),
        0 <= i < s.len(),
    ensures
        assoc(s, s[i].0) == Some(s[i].1),
    decreases s.len(),
{
    if i > 0 {
        lemma_chars_order(s[0].0, s[i].0, s[0].0);
        let t = s.drop_first();
        assert forall|a: int, b: int| 0 <= a < b < t.len() implies chars_lt(
            #[trigger] t[a].0,
            #[trigger] t[b].0,
        ) by {
            assert(t[a] == s[a + 1] && t[b] == s[b + 1]);
        }
        assert(t[i - 1] == s[i]);
        lemma_assoc_at(t, i - 1);
    }
}

pub open spec fn keyed_view<V>(s: Seq<(String, V)>) -> Seq<(Seq<char>, V)> {
    s.map_values(|p: (String, V)| (p.0@, p.1))
}

pub open spec fn files_view(s: Seq<(String, ContentId)>) -> Seq<(Seq<char>, Seq<u8>)> {
    s.map_values(|p: (String, ContentId)| (p.0@, p.1.0@))
}

pub open spec fn links_view(s: Seq<(String, String)>) -> Seq<(Seq<char>, Seq<char>)> {
    s.map_values(|p: (String, String)| (p.0@, p.1@))
}

pub open spec fn strings_view(s: Seq<String>) -> Seq<Seq<char>> {
    s.map_values(|x: String| x@)
}

/// `path` relative to `heavy` when it lies under it.
pub open spec fn under(heavy: Seq<char>, path: Seq<char>) -> bool {
    starts_with_spec(path, heavy.push('/'))
}

pub open spec fn strip_under(heavy: Seq<char>, path: Seq<char>) -> Seq<char> {
    path.skip(heavy.len() + 1int)
}

/// The directories that become entries: all but the snapshot root.
pub open spec fn entry_dirs(dirs: Seq<Seq<char>>, heavy: Seq<char>) -> Seq<Seq<char>> {
    dirs.filter(|d: Seq<char>| d != heavy)
}

pub open spec fn dir_entry(heavy: Seq<char>, dir_modes: Seq<(Seq<char>, u32)>, d: Seq<char>) -> EntryView {
    EntryView {
        rel: strip_under(heavy, d),
        kind: EntryKind::Dir,
        mode: (match assoc(dir_modes, d) {
            Some(m) => m,
            None => 0o755u32,
        }) & 0o7777u32,
        blob: None,
        target: None,
    }
}

pub open spec fn file_entry(heavy: Seq<char>, modes: Seq<(Seq<char>, u32)>, f: (Seq<char>, Seq<u8>)) -> EntryView {
    EntryView {
        rel: strip_under(heavy, f.0),
        kind: EntryKind::File,
        mode: normalized_mode_spec(assoc(modes, f.0)->0),
        blob: Some(f.1),
        target: None,
    }
}

pub open spec fn link_entry(heavy: Seq<char>, l: (Seq<char>, Seq<char>)) -> EntryView {
    EntryView {
        rel: strip_under(heavy, l.0),
        kind: EntryKind::Symlink,
        mode: crate::snapshot::SYMLINK_MODE,
        blob: None,
        target: Some(l.1),
    }
}

/// Every path lies under the snapshot root and every file has a
/// recorded mode and size.
pub open spec fn parts_ok(
    dirs: Seq<Seq<char>>,
    files: Seq<(Seq<char>, Seq<u8>)>,
    sizes: Seq<(Seq<char>, u64)>,
    links: Seq<(Seq<char>, Seq<char>)>,
    modes: Seq<(Seq<char>, u32)>,
    heavy: Seq<char>,
) -> bool {
    &&& forall|i: int| 0 <= i < dirs.len() && dirs[i] != heavy ==> under(heavy, #[trigger] dirs[i])
    &&& forall|i: int|
        0 <= i < files.len() ==> under(heavy, (#[trigger] files[i]).0) && assoc(modes, files[i].0) is Some
            && assoc(sizes, files[i].0) is Some
    &&& forall|i: int| 0 <= i < links.len() ==> under(heavy, (#[trigger] links[i]).0)
}

/// The manifest entries the parts describe, before sorting: the
/// directories, then the files, then the symlinks.
pub open spec fn parts_entries(
    dirs: Seq<Seq<char>>,
    dir_modes: Seq<(Seq<char>, u32)>,
    files: Seq<(Seq<char>, Seq<u8>)>,
    links: Seq<(Seq<char>, Seq<char>)>,
    modes: Seq<(Seq<char>, u32)>,
    heavy: Seq<char>,
) -> Seq<EntryView> {
    entry_dirs(dirs, heavy).map_values(|d: Seq<char>| dir_entry(heavy, dir_modes, d)) + files.map_values(
        |f: (Seq<char>, Seq<u8>)| file_entry(heavy, modes, f),
    ) + links.map_values(|l: (Seq<char>, Seq<char>)| link_entry(heavy, l))
}

/// The total size of the distinct blobs, each counted at the size of
/// the first file (in order) that holds it; `seen` blobs are counted
/// already.
pub open spec fn unique_total(files: Seq<(Seq<char>, Seq<u8>)>, sizes: Seq<(Seq<char>, u64)>, seen: Set<Seq<u8>>) -> int
    decreases files.len(),
{
    if files.len() == 0 {
        0
    } else {
        let f = files[0];
        match assoc(sizes, f.0) {
            Some(sz) => if !seen.contains(f.1) {
                sz + unique_total(files.drop_first(), sizes, seen.insert(f.1))
            } else {
                unique_total(files.drop_first(), sizes, seen)
            },
            None => unique_total(files.drop_first(), sizes, seen),
        }
    }
}

proof fn lemma_unique_total_nonneg(files: Seq<(Seq<char>, Seq<u8>)>, sizes: Seq<(Seq<char>, u64)>, seen: Set<Seq<u8>>)
    ensures
        unique_total(files, sizes, seen) >= 0,
    decreases files.len(),
{
    if files.len() > 0 {
        lemma_unique_total_nonneg(files.drop_first(), sizes, seen);
        lemma_unique_total_nonneg(files.drop_first(), sizes, seen.insert(files[0].1));
    }
}

pub(crate) fn lookup<V: Copy>(s: &Vec<(String, V)>, k: &str) -> (r: Option<V>)
    ensures
        r == assoc(keyed_view(s@), k@),
{
    let ghost kv = keyed_view(s@);
    let key = k.to_string();
    let mut i: usize = 0;
    assert(kv.skip(0) =~= kv);
    while i < s.len()
        invariant
            i <= s@.len(),
            kv == keyed_view(s@),
            key@ == k@,
            assoc(kv.skip(i as int), k@) == assoc(kv, k@),
        decreases s@.len() - i,
    {
        assert(kv.skip(i as int)[0] == kv[i as int]);
        assert(kv.skip(i as int).drop_first() =~= kv.skip(i + 1));
        if s[i].0.eq(&key) {
            return Some(s[i].1);
        }
        i = i + 1;
    }
    None
}

pub(crate) fn strip_heavy(heavy: &Vec<char>, path: &str) -> (r: Option<String>)
    ensures
        under(heavy@, path@) ==> (r matches Some(s) && s@ == strip_under(heavy@, path@)),
        !under(heavy@, path@) ==> r is None,
{
    let p = chars_of(path);
    let mut pre = heavy.clone();
    pre.push('/');
    let n = pre.len();
    if n <= p.len() && crate::text::chars_eq(&crate::text::slice_chars(&p, 0, n), &pre) {
        assert(p@.take(n as int) =~= p@.subrange(0, n as int));
        let rest = crate::text::slice_chars(&p, n, p.len());
        assert(rest@ =~= p@.skip(n as int));
        Some(string_of(&rest))
    } else {
        proof {
            if under(heavy@, path@) {
                assert(p@.subrange(0, n as int) =~= p@.take(n as int));
            }
        }
        None
    }
}

/// Build the snapshot manifest of an ingest, relative to `heavy_rel`:
/// directory modes come from `dir_modes` (0o755 when absent), file
/// modes and sizes must be recorded, `heavy_rel` itself is the
/// implicit root, and the total size sums the distinct blobs. Refused
/// when a path lies outside `heavy_rel`, a file lacks its mode or size,
/// or the entries cannot form a manifest.
pub fn manifest_from_parts(
    dirs: &Vec<String>,
    dir_modes: &Vec<(String, u32)>,
    files: &Vec<(String, ContentId)>,
    file_sizes: &Vec<(String, u64)>,
    symlinks: &Vec<(String, String)>,
    modes: &Vec<(String, u32)>,
    heavy_rel: &str,
    lockfile_hash: Option<ContentId>,
) -> (r: Result<Manifest, String>)
    requires
        unique_total(files_view(files@), keyed_view(file_sizes@), Set::empty()) <= u64::MAX,
    ensures
        ({
            let es = parts_entries(
                strings_view(dirs@),
                keyed_view(dir_modes@),
                files_view(files@),
                links_view(symlinks@),
                keyed_view(modes@),
                heavy_rel@,
            );
            &&& r is Ok <==> parts_ok(
                strings_view(dirs@),
                files_view(files@),
                keyed_view(file_sizes@),
                links_view(symlinks@),
                keyed_view(modes@),
                heavy_rel@,
            ) && all_entries_ok(es) && rels_distinct(es)
            &&& r matches Ok(m) ==> manifest_wf(m@) && m@.entries.to_multiset() == es.to_multiset()
                && m.lockfile_hash == lockfile_hash && m.total_size == unique_total(
                files_view(files@),
                keyed_view(file_sizes@),
                Set::empty(),
            )
        }),
{
    let heavy = chars_of(heavy_rel);
    let ghost dv = strings_view(dirs@);
    let ghost fv = files_view(files@);
    let ghost lv = links_view(symlinks@);
    let ghost dmv = keyed_view(dir_modes@);
    let ghost mv = keyed_view(modes@);
    let ghost sv = keyed_view(file_sizes@);
    let ghost keep = |d: Seq<char>| d != heavy_rel@;
    let mut entries: Vec<SnapshotEntry> = Vec::new();
    let mut i: usize = 0;
    assert(dv.take(0).filter(keep) =~= Seq::<Seq<char>>::empty());
    while i < dirs.len()
        invariant
            i <= dv.len(),
            dv == strings_view(dirs@),
            dmv == keyed_view(dir_modes@),
            heavy@ == heavy_rel@,
            keep == (|d: Seq<char>| d != heavy_rel@),
            forall|k: int| 0 <= k < i && dv[k] != heavy_rel@ ==> under(heavy_rel@, #[trigger] dv[k]),
            entries_view(entries@) == dv.take(i as int).filter(keep).map_values(
                |d: Seq<char>| dir_entry(heavy_rel@, dmv, d),
            ),
        decreases dv.len() - i,
    {
        proof {
            dv.take(i as int).lemma_filter_push(dv[i as int], keep);
            assert(dv.take(i as int).push(dv[i as int]) =~= dv.take(i + 1));
        }
        let d = dirs[i].as_str();
        assert(d@ == dv[i as int]);
        if !crate::text::str_eq(d, heavy_rel) {
            let rel = match strip_heavy(&heavy, d) {
                Some(rel) => rel,
                None => {
                    return Err(crate::text::cat4(
                        "ingested path ",
                        crate::text::debug_quote(d).as_str(),
                        " lies outside ",
                        crate::text::debug_quote(heavy_rel).as_str(),
                    ));
                },
            };
            let raw = match lookup(dir_modes, d) {
                Some(m) => m,
                None => 0o755u32,
            };
            let ghost before = entries_view(entries@);
            entries.push(SnapshotEntry { rel, kind: EntryKind::Dir, mode: raw & 0o7777u32, blob: None, target: None });
            assert(entries_view(entries@) =~= before.push(dir_entry(heavy_rel@, dmv, dv[i as int])));
            assert(entries_view(entries@) =~= dv.take(i + 1).filter(keep).map_values(
                |d: Seq<char>| dir_entry(heavy_rel@, dmv, d),
            ));
        } else {
            assert(entries_view(entries@) =~= dv.take(i + 1).filter(keep).map_values(
                |d: Seq<char>| dir_entry(heavy_rel@, dmv, d),
            ));
        }
        i = i + 1;
    }
    assert(dv.take(i as int) =~= dv);
    let ghost n_dirs = entries@.len();
    let ghost dir_part = entries_view(entries@);
    let mut j: usize = 0;
    while j < files.len()
        invariant
            j <= fv.len(),
            fv == files_view(files@),
            mv == keyed_view(modes@),
            sv == keyed_view(file_sizes@),
            heavy@ == heavy_rel@,
            forall|k: int|
                0 <= k < j ==> under(heavy_rel@, (#[trigger] fv[k]).0) && assoc(mv, fv[k].0) is Some
                    && assoc(sv, fv[k].0) is Some,
            entries_view(entries@) == dir_part + fv.take(j as int).map_values(
                |f: (Seq<char>, Seq<u8>)| file_entry(heavy_rel@, mv, f),
            ),
        decreases fv.len() - j,
    {
        let path = files[j].0.as_str();
        let id = files[j].1;
        assert(fv[j as int] == (path@, id.0@));
        let rel = match strip_heavy(&heavy, path) {
            Some(rel) => rel,
            None => {
                return Err(crate::text::cat4(
                        "ingested path ",
                        crate::text::debug_quote(path).as_str(),
                        " lies outside ",
                        crate::text::debug_quote(heavy_rel).as_str(),
                    ));
            },
        };
        let mode = match lookup(modes, path) {
            Some(m) => m,
            None => {
                return Err(crate::text::cat3(
                    "ingested file ",
                    crate::text::debug_quote(path).as_str(),
                    " lacks a recorded mode (files/modes invariant)",
                ));
            },
        };
        match lookup(file_sizes, path) {
            Some(_) => {},
            None => {
                return Err(crate::text::cat3(
                    "ingested file ",
                    crate::text::debug_quote(path).as_str(),
                    " lacks a recorded size (files/file_sizes invariant)",
                ));
            },
        }
        let ghost before = entries_view(entries@);
        entries.push(SnapshotEntry::file(rel.as_str(), id, mode));
        assert(entries_view(entries@) =~= before.push(file_entry(heavy_rel@, mv, fv[j as int])));
        assert(fv.take(j + 1) =~= fv.take(j as int).push(fv[j as int]));
        assert(entries_view(entries@) =~= dir_part + fv.take(j + 1).map_values(
            |f: (Seq<char>, Seq<u8>)| file_entry(heavy_rel@, mv, f),
        ));
        j = j + 1;
    }
    assert(fv.take(j as int) =~= fv);
    let ghost file_part = entries_view(entries@);
    let mut k: usize = 0;
    while k < symlinks.len()
        invariant
            k <= lv.len(),
            lv == links_view(symlinks@),
            heavy@ == heavy_rel@,
            forall|q: int| 0 <= q < k ==> under(heavy_rel@, (#[trigger] lv[q]).0),
            entries_view(entries@) == file_part + lv.take(k as int).map_values(
                |l: (Seq<char>, Seq<char>)| link_entry(heavy_rel@, l),
            ),
        decreases lv.len() - k,
    {
        let path = symlinks[k].0.as_str();
        let target = symlinks[k].1.as_str();
        assert(lv[k as int] == (path@, target@));
        let rel = match strip_heavy(&heavy, path) {
            Some(rel) => rel,
            None => {
                return Err(crate::text::cat4(
                        "ingested path ",
                        crate::text::debug_quote(path).as_str(),
                        " lies outside ",
                        crate::text::debug_quote(heavy_rel).as_str(),
                    ));
            },
        };
        let ghost before = entries_view(entries@);
        entries.push(SnapshotEntry::symlink(rel.as_str(), target));
        assert(entries_view(entries@) =~= before.push(link_entry(heavy_rel@, lv[k as int])));
        assert(lv.take(k + 1) =~= lv.take(k as int).push(lv[k as int]));
        assert(entries_view(entries@) =~= file_part + lv.take(k + 1).map_values(
            |l: (Seq<char>, Seq<char>)| link_entry(heavy_rel@, l),
        ));
        k = k + 1;
    }
    assert(lv.take(k as int) =~= lv);
    assert(entries_view(entries@) =~= parts_entries(dv, dmv, fv, lv, mv, heavy_rel@));
    let total = unique_size(files, file_sizes);
    Manifest::new_with_lockfile_and_size(entries, lockfile_hash, total)
}

/// The total size of the distinct blobs, each at its first file's size.
pub(crate) fn unique_size(files: &Vec<(String, ContentId)>, file_sizes: &Vec<(String, u64)>) -> (r: u64)
    requires
        unique_total(files_view(files@), keyed_view(file_sizes@), Set::empty()) <= u64::MAX,
    ensures
        r == unique_total(files_view(files@), keyed_view(file_sizes@), Set::empty()),
{
    let ghost fv = files_view(files@);
    let ghost sv = keyed_view(file_sizes@);
    let ghost total = unique_total(fv, sv, Set::empty());
    let mut seen = IdSet::new();
    let mut sum: u64 = 0;
    let mut i: usize = 0;
    assert(fv.skip(0) =~= fv);
    assert(seen@ =~= Set::<Seq<u8>>::empty());
    while i < files.len()
        invariant
            i <= fv.len(),
            fv == files_view(files@),
            sv == keyed_view(file_sizes@),
            total == unique_total(fv, sv, Set::empty()),
            total <= u64::MAX,
            sum + unique_total(fv.skip(i as int), sv, seen@) == total,
        decreases fv.len() - i,
    {
        let ghost rest = fv.skip(i as int);
        assert(rest[0] == fv[i as int]);
        assert(rest.drop_first() =~= fv.skip(i + 1));
        let path = files[i].0.as_str();
        let id = files[i].1;
        assert(fv[i as int] == (path@, id.0@));
        proof {
            lemma_unique_total_nonneg(fv.skip(i + 1), sv, seen@);
            lemma_unique_total_nonneg(fv.skip(i + 1), sv, seen@.insert(id.0@));
        }
        match lookup(file_sizes, path) {
            Some(sz) => {
                if !seen.contains(&id) {
                    seen.insert(id);
                    sum = sum + sz;
                }
            },
            None => {},
        }
        i = i + 1;
    }
    sum
}

impl Ingested {
    /// Every map is held as an ordered map holds it: keys strictly
    /// increasing. Then each key's value is the one recorded for it.
    pub open spec fn wf(&self) -> bool {
        &&& keys_increasing(keyed_view(self.dir_modes@))
        &&& keys_increasing(files_view(self.files@))
        &&& keys_increasing(keyed_view(self.file_sizes@))
        &&& keys_increasing(links_view(self.symlinks@))
        &&& keys_increasing(keyed_view(self.modes@))
    }
}

impl Ingested {
    /// The snapshot manifest of this ingest, relative to `heavy_rel`, as
    /// [`manifest_from_parts`] builds it.
    pub fn to_snapshot_manifest(&self, heavy_rel: &str, lockfile_hash: Option<ContentId>) -> (r: Result<Manifest, String>)
        requires
            unique_total(files_view(self.files@), keyed_view(self.file_sizes@), Set::empty()) <= u64::MAX,
        ensures
            ({
                let es = parts_entries(
                    strings_view(self.dirs@),
                    keyed_view(self.dir_modes@),
                    files_view(self.files@),
                    links_view(self.symlinks@),
                    keyed_view(self.modes@),
                    heavy_rel@,
                );
                &&& r is Ok <==> parts_ok(
                    strings_view(self.dirs@),
                    files_view(self.files@),
                    keyed_view(self.file_sizes@),
                    links_view(self.symlinks@),
                    keyed_view(self.modes@),
                    heavy_rel@,
                ) && all_entries_ok(es) && rels_distinct(es)
                &&& r matches Ok(m) ==> manifest_wf(m@) && m@.entries.to_multiset() == es.to_multiset()
                    && m.lockfile_hash == lockfile_hash && m.total_size == unique_total(
                    files_view(self.files@),
                    keyed_view(self.file_sizes@),
                    Set::empty(),
                )
            }),
    {
        manifest_from_parts(
            &self.dirs,
            &self.dir_modes,
            &self.files,
            &self.file_sizes,
            &self.symlinks,
            &self.modes,
            heavy_rel,
            lockfile_hash,
        )
    }

    /// Owned form of [`Self::to_snapshot_manifest`].
    pub fn into_snapshot_manifest(self, heavy_rel: &str, lockfile_hash: Option<ContentId>) -> (r: Result<Manifest, String>)
        requires
            unique_total(files_view(self.files@), keyed_view(self.file_sizes@), Set::empty()) <= u64::MAX,
        ensures
            ({
                let es = parts_entries(
                    strings_view(self.dirs@),
                    keyed_view(self.dir_modes@),
                    files_view(self.files@),
                    links_view(self.symlinks@),
                    keyed_view(self.modes@),
                    heavy_rel@,
                );
                &&& r is Ok <==> parts_ok(
                    strings_view(self.dirs@),
                    files_view(self.files@),
                    keyed_view(self.file_sizes@),
                    links_view(self.symlinks@),
                    keyed_view(self.modes@),
                    heavy_rel@,
                ) && all_entries_ok(es) && rels_distinct(es)
                &&& r matches Ok(m) ==> manifest_wf(m@) && m@.entries.to_multiset() == es.to_multiset()
                    && m.lockfile_hash == lockfile_hash && m.total_size == unique_total(
                    files_view(self.files@),
                    keyed_view(self.file_sizes@),
                    Set::empty(),
                )
            }),
    {
        self.to_snapshot_manifest(heavy_rel, lockfile_hash)
    }
}

} // verus!
