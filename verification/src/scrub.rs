//! Store scrubbing: re-hashing every blob against its own address and
//! re-proving every published snapshot directory.
//!
//! The pass itself (reading shards, streaming bytes, deleting what
//! failed) is filesystem work; what it decides about a snapshot's tree
//! — that the tree holds exactly the manifest's paths — and what it
//! reports are stated here.

use vstd::prelude::*;

use crate::snapdiff::{lemma_rel_index, rel_index, search_rel};
use crate::snapshot::{entries_view, rels_increasing, Manifest};
use crate::text::chars_of;
use crate::ContentId;

verus! {

/// What one scrub pass observed.
#[derive(Debug, Clone, PartialEq, Eq)]
pub struct ScrubReport {
    /// Blobs the pass streamed through SHA-256.
    pub scanned: u64,
    /// Blobs whose bytes no longer match their content address, sorted.
    pub corrupt: Vec<ContentId>,
    /// Corrupt blobs actually deleted; always zero for a dry run.
    pub deleted: u64,
    /// Published snapshot directories scanned.
    pub snapshot_dirs_scanned: u64,
    /// Names of broken or corrupted snapshot directories, sorted.
    pub corrupt_snapshots: Vec<String>,
    /// Broken snapshot directories actually deleted; always zero for a
    /// dry run.
    pub snapshot_dirs_deleted: u64,
}

/// The paths found under a snapshot's `tree/` are exactly the paths
/// its manifest lists, each once: as many of them, none repeated, and
/// every one a manifest path.
pub open spec fn same_paths(got: Seq<Seq<char>>, m: Manifest) -> bool {
    let es = entries_view(m.entries@);
    &&& got.len() == es.len()
    &&& forall|i: int, j: int| 0 <= i < j < got.len() ==> got[i] != got[j]
    &&& forall|i: int| 0 <= i < got.len() ==> rel_index(es, #[trigger] got[i]) >= 0
}

/// The texts of a list of paths.
pub open spec fn paths_view(v: Seq<String>) -> Seq<Seq<char>> {
    v.map_values(|s: String| s@)
}

/// Whether a walked tree holds exactly the manifest's paths, in any
/// order (the walk's order is the directory listing's).
pub fn tree_paths_match(got: &Vec<String>, manifest: &Manifest) -> (r: bool)
    requires
        rels_increasing(entries_view(manifest.entries@)),
    ensures
        r == same_paths(paths_view(got@), *manifest),
{
    let ghost es = entries_view(manifest.entries@);
    let ghost g = paths_view(got@);
    let n = manifest.entries.len();
    if got.len() != n {
        return false;
    }
    let mut seen: Vec<bool> = Vec::new();
    let mut k: usize = 0;
    while k < n
        invariant
            n == es.len(),
            es == entries_view(manifest.entries@),
            0 <= k <= n,
            seen@.len() == k,
            forall|t: int| 0 <= t < k ==> !seen@[t],
        decreases n - k,
    {
        seen.push(false);
        k = k + 1;
    }
    let mut i: usize = 0;
    while i < got.len()
        invariant
            g == paths_view(got@),
            es == entries_view(manifest.entries@),
            rels_increasing(es),
            got.len() == n,
            n == es.len(),
            seen@.len() == n,
            0 <= i <= got.len(),
            forall|a: int, b: int| 0 <= a < b < i ==> g[a] != g[b],
            forall|a: int| 0 <= a < i ==> rel_index(es, #[trigger] g[a]) >= 0,
            forall|t: int|
                0 <= t < n ==> (#[trigger] seen@[t] <==> exists|a: int| 0 <= a < i && rel_index(es, g[a]) == t),
        decreases got.len() - i,
    {
        let key = chars_of(got[i].as_str());
        assert(g[i as int] == got@[i as int]@);
        let found = search_rel(manifest.entries.as_slice(), &key);
        match found {
            None => {
                return false;
            },
            Some(t) => {
                if seen[t] {
                    proof {
                        let a = choose|a: int| 0 <= a < i && rel_index(es, g[a]) == t as int;
                        lemma_rel_index(es, g[a]);
                        lemma_rel_index(es, g[i as int]);
                        assert(g[a] == g[i as int]);
                    }
                    return false;
                }
                proof {
                    lemma_rel_index(es, g[i as int]);
                    assert forall|a: int| 0 <= a < i implies g[a] != g[i as int] by {
                        if g[a] == g[i as int] {
                            assert(seen@[t as int]);
                        }
                    }
                }
                seen.set(t, true);
                proof {
                    assert forall|u: int| 0 <= u < n implies (#[trigger] seen@[u] <==> exists|a: int|
                        0 <= a < i + 1 && rel_index(es, g[a]) == u) by {
                        if u == t as int {
                            assert(rel_index(es, g[i as int]) == u);
                        } else if seen@[u] {
                            let a = choose|a: int| 0 <= a < i && rel_index(es, g[a]) == u;
                            assert(0 <= a < i + 1 && rel_index(es, g[a]) == u);
                        }
                    }
                }
                i = i + 1;
            },
        }
    }
    true
}

} // verus!
