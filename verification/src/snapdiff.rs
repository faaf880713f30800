//! Manifest diff for incremental snapshot rebuilds.
//!
//! Both inputs are canonical manifests (strictly increasing paths), so
//! a single sorted merge classifies every path:
//!
//! - **unchanged**: present in both with the same kind, mode, and ref
//!   (blob id for files, target for symlinks; dirs carry none).
//! - **modified**: same path and kind, different mode or ref. A kind
//!   flip counts as delete + add.
//! - **added** / **deleted**: present on one side only.
//!
//! On top sits the unchanged subtree unit rule: a directory `D` is fully
//! unchanged iff it is a dir entry in both manifests and every entry at
//! or under `D/`, in either manifest, is unchanged. Units are reported
//! maximal only: a qualifying directory inside a qualifying directory
//! is folded into it. Unchanged files at the root are never units.

use vstd::prelude::*;

use crate::order::{chars_lt, lemma_chars_order, order_chars};
use crate::snapshot::{entries_view, rels_increasing, EntryKind, EntryView, SnapshotEntry};
use crate::text::chars_of;

verus! {

/// Classification of one rebuild against an old manifest.
#[derive(Debug, Clone, Default, PartialEq, Eq)]
pub struct SnapshotDiff {
    /// Entries present only in the new manifest.
    pub added: Vec<SnapshotEntry>,
    /// Entries in both whose content address changed.
    pub modified: Vec<SnapshotEntry>,
    /// Entries present only in the old manifest.
    pub deleted: Vec<SnapshotEntry>,
}

/// Two entries for one path carry the same kind, mode and reference.
pub open spec fn identical(a: EntryView, b: EntryView) -> bool {
    a.kind == b.kind && a.mode == b.mode && a.blob == b.blob && a.target == b.target
}

/// Index of the first entry with path `r`, or -1.
pub open spec fn rel_index(s: Seq<EntryView>, r: Seq<char>) -> int
    decreases s.len(),
{
    if s.len() == 0 {
        -1
    } else {
        let j = rel_index(s.drop_last(), r);
        if j >= 0 {
            j
        } else if s.last().rel == r {
            s.len() - 1
        } else {
            -1
        }
    }
}

pub proof fn lemma_rel_index(s: Seq<EntryView>, r: Seq<char>)
    ensures
        -1 <= rel_index(s, r) < s.len(),
        rel_index(s, r) >= 0 ==> s[rel_index(s, r)].rel == r,
        forall|j: int|
            0 <= j < s.len() && (rel_index(s, r) == -1 || j < rel_index(s, r)) ==> (
            #[trigger] s[j]).rel != r,
    decreases s.len(),
{
    if s.len() > 0 {
        lemma_rel_index(s.drop_last(), r);
        assert forall|j: int| 0 <= j < s.len() - 1 implies s.drop_last()[j] == #[trigger] s[j] by {}
    }
}

/// In a sequence with strictly increasing paths, the entry holding a
/// path is found at its own position.
pub proof fn lemma_rel_index_at(s: Seq<EntryView>, b: int)
    requires
        rels_increasing(s),
        0 <= b < s.len(),
    ensures
        rel_index(s, s[b].rel) == b,
{
    lemma_rel_index(s, s[b].rel);
    let k = rel_index(s, s[b].rel);
    if k != b {
        if k >= 0 && k < b {
            assert(chars_lt(s[k].rel, s[b].rel));
            lemma_chars_order(s[k].rel, s[b].rel, s[k].rel);
        } else if k > b {
            assert(s[b].rel != s[b].rel);
        }
    }
}

/// `e` of the old manifest has no same-kind counterpart in the new one.
pub open spec fn deleted_pred(new: Seq<EntryView>) -> spec_fn(EntryView) -> bool {
    |e: EntryView|
        {
            let k = rel_index(new, e.rel);
            k < 0 || new[k].kind != e.kind
        }
}

/// `e` of the new manifest has no same-kind counterpart in the old one.
pub open spec fn added_pred(old: Seq<EntryView>) -> spec_fn(EntryView) -> bool {
    |e: EntryView|
        {
            let k = rel_index(old, e.rel);
            k < 0 || old[k].kind != e.kind
        }
}

/// `e` of the new manifest has a same-kind counterpart in the old one
/// that differs in mode or reference.
pub open spec fn modified_pred(old: Seq<EntryView>) -> spec_fn(EntryView) -> bool {
    |e: EntryView|
        {
            let k = rel_index(old, e.rel);
            k >= 0 && old[k].kind == e.kind && !identical(old[k], e)
        }
}

impl View for SnapshotDiff {
    type V = (Seq<EntryView>, Seq<EntryView>, Seq<EntryView>);

    open spec fn view(&self) -> (Seq<EntryView>, Seq<EntryView>, Seq<EntryView>) {
        (entries_view(self.added@), entries_view(self.modified@), entries_view(self.deleted@))
    }
}

fn identical_exec(a: &SnapshotEntry, b: &SnapshotEntry) -> (r: bool)
    ensures
        r == identical(a@, b@),
{
    let same_blob = match (&a.blob, &b.blob) {
        (Some(x), Some(y)) => *x == *y,
        (None, None) => true,
        _ => false,
    };
    let same_target = match (&a.target, &b.target) {
        (Some(x), Some(y)) => crate::text::str_eq(x.as_str(), y.as_str()),
        (None, None) => true,
        _ => false,
    };
    a.kind == b.kind && a.mode == b.mode && same_blob && same_target
}

/// No entry of `s` has path `x`, when `x` falls between positions
/// `j - 1` and `j`.
proof fn lemma_gap_absent(s: Seq<EntryView>, x: Seq<char>, j: int)
    requires
        rels_increasing(s),
        0 <= j <= s.len(),
        j > 0 ==> chars_lt(s[j - 1].rel, x),
        j < s.len() ==> chars_lt(x, s[j].rel),
    ensures
        rel_index(s, x) == -1,
{
    lemma_rel_index(s, x);
    let k = rel_index(s, x);
    if k >= 0 {
        if k < j {
            if k < j - 1 {
                assert(chars_lt(s[k].rel, s[j - 1].rel));
            }
            lemma_chars_order(s[k].rel, s[j - 1].rel, x);
            lemma_chars_order(x, s[j - 1].rel, x);
        } else {
            if k > j {
                assert(chars_lt(s[j].rel, s[k].rel));
            }
            lemma_chars_order(x, s[j].rel, s[k].rel);
            lemma_chars_order(x, x, x);
        }
    }
}

proof fn lemma_filter_step(s: Seq<EntryView>, i: int, p: spec_fn(EntryView) -> bool)
    requires
        0 <= i < s.len(),
    ensures
        s.take(i + 1).filter(p) == if p(s[i]) {
            s.take(i).filter(p).push(s[i])
        } else {
            s.take(i).filter(p)
        },
{
    s.take(i).lemma_filter_push(s[i], p);
    assert(s.take(i).push(s[i]) =~= s.take(i + 1));
}

proof fn lemma_view_push(s: Seq<SnapshotEntry>, e: SnapshotEntry)
    ensures
        entries_view(s.push(e)) == entries_view(s).push(e@),
{
    assert(entries_view(s.push(e)) =~= entries_view(s).push(e@));
}

impl SnapshotDiff {
    /// Sorted merge of two canonical manifests' entries.
    pub fn compute(old: &[SnapshotEntry], new: &[SnapshotEntry]) -> (d: SnapshotDiff)
        requires
            rels_increasing(entries_view(old@)),
            rels_increasing(entries_view(new@)),
        ensures
            d@.2 == entries_view(old@).filter(deleted_pred(entries_view(new@))),
            d@.0 == entries_view(new@).filter(added_pred(entries_view(old@))),
            d@.1 == entries_view(new@).filter(modified_pred(entries_view(old@))),
    {
        let ghost vo = entries_view(old@);
        let ghost vn = entries_view(new@);
        let ghost pd = deleted_pred(vn);
        let ghost pa = added_pred(vo);
        let ghost pm = modified_pred(vo);
        let mut added: Vec<SnapshotEntry> = Vec::new();
        let mut modified: Vec<SnapshotEntry> = Vec::new();
        let mut deleted: Vec<SnapshotEntry> = Vec::new();
        let mut i: usize = 0;
        let mut j: usize = 0;
        assert(vo.take(0).filter(pd) =~= Seq::<EntryView>::empty());
        assert(vn.take(0).filter(pa) =~= Seq::<EntryView>::empty());
        assert(vn.take(0).filter(pm) =~= Seq::<EntryView>::empty());
        assert(entries_view(added@) =~= Seq::<EntryView>::empty());
        assert(entries_view(modified@) =~= Seq::<EntryView>::empty());
        assert(entries_view(deleted@) =~= Seq::<EntryView>::empty());
        while i < old.len() || j < new.len()
            invariant
                vo == entries_view(old@),
                vn == entries_view(new@),
                pd == deleted_pred(vn),
                pa == added_pred(vo),
                pm == modified_pred(vo),
                rels_increasing(vo),
                rels_increasing(vn),
                i <= old.len(),
                j <= new.len(),
                i > 0 && j < new.len() ==> chars_lt(vo[i - 1].rel, vn[j as int].rel),
                j > 0 && i < old.len() ==> chars_lt(vn[j - 1].rel, vo[i as int].rel),
                entries_view(deleted@) == vo.take(i as int).filter(pd),
                entries_view(added@) == vn.take(j as int).filter(pa),
                entries_view(modified@) == vn.take(j as int).filter(pm),
            decreases old.len() + new.len() - i - j,
        {
            let o = if i < old.len() && j < new.len() {
                order_chars(&chars_of(old[i].rel.as_str()), &chars_of(new[j].rel.as_str()))
            } else if i < old.len() {
                -1
            } else {
                1
            };
            if o < 0 {
                proof {
                    assert(vo[i as int] == old@[i as int]@);
                    lemma_gap_absent(vn, vo[i as int].rel, j as int);
                    lemma_filter_step(vo, i as int, pd);
                    lemma_view_push(deleted@, old@[i as int]);
                    if i + 1 < old.len() {
                        assert(chars_lt(vo[i as int].rel, vo[i + 1].rel));
                        if j > 0 {
                            lemma_chars_order(vn[j - 1].rel, vo[i as int].rel, vo[i + 1].rel);
                        }
                    }
                }
                deleted.push(old[i].clone());
                i = i + 1;
            } else if o > 0 {
                proof {
                    assert(vn[j as int] == new@[j as int]@);
                    lemma_gap_absent(vo, vn[j as int].rel, i as int);
                    lemma_filter_step(vn, j as int, pa);
                    lemma_filter_step(vn, j as int, pm);
                    lemma_view_push(added@, new@[j as int]);
                    if j + 1 < new.len() {
                        assert(chars_lt(vn[j as int].rel, vn[j + 1].rel));
                        if i > 0 {
                            lemma_chars_order(vo[i - 1].rel, vn[j as int].rel, vn[j + 1].rel);
                        }
                    }
                }
                added.push(new[j].clone());
                j = j + 1;
            } else {
                let same = identical_exec(&old[i], &new[j]);
                proof {
                    assert(vo[i as int] == old@[i as int]@);
                    assert(vn[j as int] == new@[j as int]@);
                    lemma_rel_index_at(vn, j as int);
                    lemma_rel_index_at(vo, i as int);
                    lemma_filter_step(vo, i as int, pd);
                    lemma_filter_step(vn, j as int, pa);
                    lemma_filter_step(vn, j as int, pm);
                    if i + 1 < old.len() {
                        assert(chars_lt(vo[i as int].rel, vo[i + 1].rel));
                    }
                    if j + 1 < new.len() {
                        assert(chars_lt(vn[j as int].rel, vn[j + 1].rel));
                    }
                }
                if !same {
                    if old[i].kind == new[j].kind {
                        proof {
                            lemma_view_push(modified@, new@[j as int]);
                        }
                        modified.push(new[j].clone());
                    } else {
                        proof {
                            lemma_view_push(deleted@, old@[i as int]);
                            lemma_view_push(added@, new@[j as int]);
                        }
                        deleted.push(old[i].clone());
                        added.push(new[j].clone());
                    }
                }
                i = i + 1;
                j = j + 1;
            }
        }
        assert(vo.take(old.len() as int) =~= vo);
        assert(vn.take(new.len() as int) =~= vn);
        SnapshotDiff { added, modified, deleted }
    }

    /// Entries needing any work at all.
    pub fn changed_count(&self) -> (n: usize)
        requires
            self.added.len() + self.modified.len() + self.deleted.len() <= usize::MAX,
        ensures
            n == self.added.len() + self.modified.len() + self.deleted.len(),
    {
        self.added.len() + self.modified.len() + self.deleted.len()
    }
}

/// Diffing a canonical manifest against itself finds nothing to do.
pub proof fn lemma_diff_self(es: Seq<EntryView>)
    requires
        rels_increasing(es),
    ensures
        es.filter(deleted_pred(es)) == Seq::<EntryView>::empty(),
        es.filter(added_pred(es)) == Seq::<EntryView>::empty(),
        es.filter(modified_pred(es)) == Seq::<EntryView>::empty(),
{
    lemma_filter_none(es, es.len() as int, es);
    assert(es.take(es.len() as int) =~= es);
}

/// A diff of two canonical manifests finds nothing to do exactly when
/// the two list the same entries.
pub proof fn lemma_diff_empty_iff_equal(old: Seq<EntryView>, new: Seq<EntryView>)
    requires
        rels_increasing(old),
        rels_increasing(new),
    ensures
        old.filter(deleted_pred(new)).len() + new.filter(added_pred(old)).len() + new.filter(
            modified_pred(old),
        ).len() == 0 <==> old == new,
{
    if old == new {
        lemma_diff_self(old);
    }
    if old.filter(deleted_pred(new)).len() + new.filter(added_pred(old)).len() + new.filter(
        modified_pred(old),
    ).len() == 0 {
        assert forall|r: Seq<char>| entry_at(old, r) == entry_at(new, r) by {
            lemma_apply_diff(old, new, r);
            lemma_rel_index(new.filter(added_pred(old)), r);
            lemma_rel_index(new.filter(modified_pred(old)), r);
        }
        lemma_same_entries_equal(old, new);
    }
}

/// A canonical list has no entry twice.
proof fn lemma_increasing_no_duplicates(s: Seq<EntryView>)
    requires
        rels_increasing(s),
    ensures
        s.no_duplicates(),
{
    assert forall|i: int, j: int| 0 <= i < s.len() && 0 <= j < s.len() && i != j implies s[i]
        != s[j] by {
        if i < j {
            lemma_chars_order(s[i].rel, s[j].rel, s[i].rel);
        } else {
            lemma_chars_order(s[j].rel, s[i].rel, s[j].rel);
        }
    }
}

/// Two canonical lists that hold the same entry at every path are the
/// same list.
proof fn lemma_same_entries_equal(a: Seq<EntryView>, b: Seq<EntryView>)
    requires
        rels_increasing(a),
        rels_increasing(b),
        forall|r: Seq<char>| entry_at(a, r) == entry_at(b, r),
    ensures
        a == b,
{
    broadcast use vstd::seq_lib::group_to_multiset_ensures;

    assert forall|e: EntryView| a.contains(e) implies b.contains(e) by {
        let i = choose|i: int| 0 <= i < a.len() && a[i] == e;
        lemma_rel_index_at(a, i);
        assert(entry_at(a, e.rel) == Some(e));
        lemma_rel_index(b, e.rel);
        assert(b[rel_index(b, e.rel)] == e);
    }
    assert forall|e: EntryView| b.contains(e) implies a.contains(e) by {
        let i = choose|i: int| 0 <= i < b.len() && b[i] == e;
        lemma_rel_index_at(b, i);
        assert(entry_at(b, e.rel) == Some(e));
        lemma_rel_index(a, e.rel);
        assert(a[rel_index(a, e.rel)] == e);
    }
    lemma_increasing_no_duplicates(a);
    lemma_increasing_no_duplicates(b);
    a.lemma_multiset_has_no_duplicates();
    b.lemma_multiset_has_no_duplicates();
    assert(a.to_multiset() =~= b.to_multiset()) by {
        assert forall|e: EntryView| a.to_multiset().count(e) == b.to_multiset().count(e) by {
            if a.contains(e) {
                assert(b.contains(e));
            } else {
                assert(!b.contains(e));
            }
        }
    }
    crate::snapshot::lemma_increasing_unique(a, b);
}

/// The entry a canonical entry list holds at path `r`.
pub open spec fn entry_at(es: Seq<EntryView>, r: Seq<char>) -> Option<EntryView> {
    let k = rel_index(es, r);
    if k >= 0 {
        Some(es[k])
    } else {
        None
    }
}

/// What the tree holds at path `r` once a clone of the old tree has had
/// the diff applied: an added or modified entry is placed afresh, else
/// the old entry stays unless it is deleted.
pub open spec fn applied_at(old: Seq<EntryView>, new: Seq<EntryView>, r: Seq<char>) -> Option<EntryView> {
    match entry_at(new.filter(added_pred(old)), r) {
        Some(e) => Some(e),
        None => match entry_at(new.filter(modified_pred(old)), r) {
            Some(e) => Some(e),
            None => match entry_at(old, r) {
                Some(o) => if old.filter(deleted_pred(new)).contains(o) {
                    None
                } else {
                    Some(o)
                },
                None => None,
            },
        },
    }
}

/// In a list with distinct paths, the entry at a path is the one
/// element with that path.
proof fn lemma_entry_at_member(es: Seq<EntryView>, e: EntryView)
    requires
        forall|i: int, j: int| 0 <= i < j < es.len() ==> (#[trigger] es[i]).rel != (#[trigger] es[j]).rel,
        es.contains(e),
    ensures
        entry_at(es, e.rel) == Some(e),
{
    let j = choose|j: int| 0 <= j < es.len() && es[j] == e;
    lemma_rel_index(es, e.rel);
    let k = rel_index(es, e.rel);
    assert(k >= 0) by {
        if k < 0 {
            assert(es[j].rel == e.rel);
        }
    }
    if k != j {
        assert(es[k].rel == es[j].rel);
        if k < j {
            assert(es[k].rel != es[j].rel);
        } else {
            assert(es[j].rel != es[k].rel);
        }
    }
}

/// A filtered canonical list holds at `r` what the list does, when that
/// entry passes the filter, and nothing otherwise.
proof fn lemma_entry_at_filter(es: Seq<EntryView>, p: spec_fn(EntryView) -> bool, r: Seq<char>)
    requires
        rels_increasing(es),
    ensures
        entry_at(es.filter(p), r) == match entry_at(es, r) {
            Some(e) => if p(e) {
                Some(e)
            } else {
                None
            },
            None => None,
        },
{
    broadcast use vstd::seq_lib::group_filter_ensures;

    let f = es.filter(p);
    assert forall|i: int, j: int| 0 <= i < j < es.len() implies (#[trigger] es[i]).rel != (#[trigger] es[j]).rel by {
        lemma_chars_order(es[i].rel, es[j].rel, es[i].rel);
    }
    assert forall|i: int, j: int| 0 <= i < j < f.len() implies (#[trigger] f[i]).rel != (#[trigger] f[j]).rel by {
        assert(f.contains(f[i]));
        assert(f.contains(f[j]));
        es.lemma_filter_contains_rev(p, f[i]);
        es.lemma_filter_contains_rev(p, f[j]);
        let a = choose|a: int| 0 <= a < es.len() && es[a] == f[i];
        let b = choose|b: int| 0 <= b < es.len() && es[b] == f[j];
        if f[i].rel == f[j].rel {
            if a != b {
                if a < b {
                    assert(es[a].rel != es[b].rel);
                } else {
                    assert(es[b].rel != es[a].rel);
                }
            }
            // Same element twice in the filter would mean two indices of
            // `es` sharing a path, ruled out above.
            lemma_filter_distinct(es, p, i, j);
        }
    }
    lemma_rel_index(es, r);
    lemma_rel_index(f, r);
    match entry_at(es, r) {
        Some(e) => {
            let k = rel_index(es, r);
            if p(e) {
                assert(f.contains(es[k]));
                lemma_entry_at_member(f, e);
            } else {
                let kf = rel_index(f, r);
                if kf >= 0 {
                    assert(f.contains(f[kf]));
                    es.lemma_filter_contains_rev(p, f[kf]);
                    let a = choose|a: int| 0 <= a < es.len() && es[a] == f[kf];
                    assert(es[a].rel == r);
                    if a != k {
                        if a < k {
                            assert(es[a].rel != es[k].rel);
                        } else {
                            assert(es[k].rel != es[a].rel);
                        }
                    }
                    assert(p(f[kf]));
                }
            }
        },
        None => {
            let kf = rel_index(f, r);
            if kf >= 0 {
                assert(f.contains(f[kf]));
                es.lemma_filter_contains_rev(p, f[kf]);
                let a = choose|a: int| 0 <= a < es.len() && es[a] == f[kf];
                assert(es[a].rel == r);
            }
        },
    }
}

/// A filter of a list with distinct elements at distinct indices keeps
/// them distinct.
proof fn lemma_filter_distinct(es: Seq<EntryView>, p: spec_fn(EntryView) -> bool, i: int, j: int)
    requires
        rels_increasing(es),
        0 <= i < j < es.filter(p).len(),
    ensures
        es.filter(p)[i].rel != es.filter(p)[j].rel,
    decreases es.len(),
{
    broadcast use vstd::seq_lib::group_filter_ensures;

    reveal(Seq::filter);
    let init = es.drop_last();
    assert(rels_increasing(init)) by {
        assert forall|a: int, b: int| 0 <= a < b < init.len() implies chars_lt(
            #[trigger] init[a].rel,
            #[trigger] init[b].rel,
        ) by {
            assert(init[a] == es[a] && init[b] == es[b]);
        }
    }
    let fi = init.filter(p);
    if p(es.last()) {
        assert(es.filter(p) == fi.push(es.last()));
        if j < fi.len() {
            lemma_filter_distinct(init, p, i, j);
        } else {
            assert(fi.contains(fi[i]));
            init.lemma_filter_contains_rev(p, fi[i]);
            let a = choose|a: int| 0 <= a < init.len() && init[a] == fi[i];
            assert(es[a] == init[a]);
            assert(chars_lt(es[a].rel, es[es.len() - 1].rel));
            lemma_chars_order(es[a].rel, es[es.len() - 1].rel, es[a].rel);
        }
    } else {
        assert(es.filter(p) == fi);
        lemma_filter_distinct(init, p, i, j);
    }
}

/// Applying the diff to a clone of the old tree gives exactly the new
/// tree: at every path the tree holds what the new manifest lists, and
/// nothing where it lists nothing.
pub proof fn lemma_apply_diff(old: Seq<EntryView>, new: Seq<EntryView>, r: Seq<char>)
    requires
        rels_increasing(old),
        rels_increasing(new),
    ensures
        applied_at(old, new, r) == entry_at(new, r),
{
    broadcast use vstd::seq_lib::group_filter_ensures;

    lemma_entry_at_filter(new, added_pred(old), r);
    lemma_entry_at_filter(new, modified_pred(old), r);
    lemma_rel_index(old, r);
    lemma_rel_index(new, r);
    match entry_at(old, r) {
        Some(o) => {
            let k = rel_index(old, r);
            assert(old[k] == o);
            if deleted_pred(new)(o) {
                assert(old.filter(deleted_pred(new)).contains(old[k]));
            } else {
                if old.filter(deleted_pred(new)).contains(o) {
                    old.lemma_filter_contains_rev(deleted_pred(new), o);
                    let q = old.filter(deleted_pred(new)).index_of(o);
                    assert(old.filter(deleted_pred(new))[q] == o);
                }
            }
            match entry_at(new, r) {
                Some(n) => {
                    let kn = rel_index(new, r);
                    assert(new[kn] == n);
                    if !added_pred(old)(n) && !modified_pred(old)(n) {
                        assert(identical(old[k], n));
                        assert(o == n);
                    }
                },
                None => {},
            }
        },
        None => {},
    }
}

proof fn lemma_filter_none(es: Seq<EntryView>, n: int, all: Seq<EntryView>)
    requires
        rels_increasing(all),
        es == all,
        0 <= n <= es.len(),
    ensures
        es.take(n).filter(deleted_pred(all)) == Seq::<EntryView>::empty(),
        es.take(n).filter(added_pred(all)) == Seq::<EntryView>::empty(),
        es.take(n).filter(modified_pred(all)) == Seq::<EntryView>::empty(),
    decreases n,
{
    broadcast use vstd::seq_lib::group_filter_ensures;

    if n == 0 {
        assert(es.take(0) =~= Seq::<EntryView>::empty());
        assert(es.take(0).filter(deleted_pred(all)).len() == 0);
        assert(es.take(0).filter(added_pred(all)).len() == 0);
        assert(es.take(0).filter(modified_pred(all)).len() == 0);
        assert(es.take(0).filter(deleted_pred(all)) =~= Seq::<EntryView>::empty());
        assert(es.take(0).filter(added_pred(all)) =~= Seq::<EntryView>::empty());
        assert(es.take(0).filter(modified_pred(all)) =~= Seq::<EntryView>::empty());
    } else {
        lemma_filter_none(es, n - 1, all);
        lemma_rel_index_at(all, n - 1);
        lemma_filter_step(es, n - 1, deleted_pred(all));
        lemma_filter_step(es, n - 1, added_pred(all));
        lemma_filter_step(es, n - 1, modified_pred(all));
    }
}

// ---------------------------------------------------------------------------
// Unchanged subtree units
// ---------------------------------------------------------------------------

/// Path `r` lies strictly under directory `d`.
pub open spec fn under(d: Seq<char>, r: Seq<char>) -> bool {
    r.len() > d.len() && r.take(d.len() as int) == d && r[d.len() as int] == '/'
}

/// Path `r` is present in both manifests, unchanged.
pub open spec fn same_both(old: Seq<EntryView>, new: Seq<EntryView>, r: Seq<char>) -> bool {
    let a = rel_index(old, r);
    let b = rel_index(new, r);
    a >= 0 && b >= 0 && identical(old[a], new[b])
}

/// `d` is a directory entry of `s`.
pub open spec fn dir_in(s: Seq<EntryView>, d: Seq<char>) -> bool {
    let k = rel_index(s, d);
    k >= 0 && s[k].kind == EntryKind::Dir
}

/// Directory `d` is fully unchanged: a dir in both manifests, itself
/// unchanged, and every entry under it, in either manifest, unchanged.
pub open spec fn fully_unchanged(old: Seq<EntryView>, new: Seq<EntryView>, d: Seq<char>) -> bool {
    &&& dir_in(old, d)
    &&& dir_in(new, d)
    &&& same_both(old, new, d)
    &&& forall|a: int|
        0 <= a < old.len() && under(d, #[trigger] old[a].rel) ==> same_both(old, new, old[a].rel)
    &&& forall|b: int|
        0 <= b < new.len() && under(d, #[trigger] new[b].rel) ==> same_both(old, new, new[b].rel)
}

/// `k` is the position of a `/` in `r`: `r.take(k)` is an ancestor.
pub open spec fn slash_at(r: Seq<char>, k: int) -> bool {
    0 <= k < r.len() && r[k] == '/'
}

/// A maximal unit: fully unchanged, with no fully unchanged ancestor.
pub open spec fn is_unit(old: Seq<EntryView>, new: Seq<EntryView>, d: Seq<char>) -> bool {
    &&& fully_unchanged(old, new, d)
    &&& forall|k: int| #[trigger] slash_at(d, k) ==> !fully_unchanged(old, new, d.take(k))
}

/// Bytes one character takes in UTF-8.
pub open spec fn char_width(c: char) -> nat {
    if (c as u32) < 0x80 {
        1
    } else if (c as u32) < 0x800 {
        2
    } else if (c as u32) < 0x10000 {
        3
    } else {
        4
    }
}

/// Length of a path's UTF-8 encoding.
pub open spec fn utf8_len(s: Seq<char>) -> nat
    decreases s.len(),
{
    if s.len() == 0 {
        0
    } else {
        utf8_len(s.drop_last()) + char_width(s.last())
    }
}

pub(crate) fn utf8_len_exec(s: &str) -> (n: u128)
    ensures
        n == utf8_len(s@),
{
    let v = chars_of(s);
    let mut n: u128 = 0;
    for i in 0..v.len()
        invariant
            v@ == s@,
            n == utf8_len(v@.take(i as int)),
            n <= 4 * i,
    {
        assert(v@.take(i + 1).drop_last() =~= v@.take(i as int));
        let c = v[i] as u32;
        let w: u128 = if c < 0x80 {
            1
        } else if c < 0x800 {
            2
        } else if c < 0x10000 {
            3
        } else {
            4
        };
        n = n + w;
    }
    assert(v@.take(v.len() as int) =~= v@);
    n
}

/// Report order of units: longer (in UTF-8 bytes) first, then path
/// order.
pub open spec fn unit_before(a: Seq<char>, b: Seq<char>) -> bool {
    utf8_len(a) > utf8_len(b) || (utf8_len(a) == utf8_len(b) && chars_lt(a, b))
}

pub open spec fn strs_view(v: Seq<String>) -> Seq<Seq<char>> {
    v.map_values(|s: String| s@)
}

pub(crate) fn search_rel(s: &[SnapshotEntry], key: &Vec<char>) -> (r: Option<usize>)
    requires
        rels_increasing(entries_view(s@)),
    ensures
        match r {
            Some(k) => k < s.len() && k as int == rel_index(entries_view(s@), key@),
            None => rel_index(entries_view(s@), key@) == -1,
        },
{
    let ghost v = entries_view(s@);
    let mut lo: usize = 0;
    let mut hi: usize = s.len();
    while lo < hi
        invariant
            v == entries_view(s@),
            rels_increasing(v),
            0 <= lo <= hi <= s.len(),
            forall|b: int| 0 <= b < lo ==> chars_lt(#[trigger] v[b].rel, key@),
            forall|b: int| hi <= b < s.len() ==> chars_lt(key@, #[trigger] v[b].rel),
        decreases hi - lo,
    {
        let mid = lo + (hi - lo) / 2;
        assert(v[mid as int] == s@[mid as int]@);
        let o = order_chars(&chars_of(s[mid].rel.as_str()), key);
        if o == 0 {
            proof {
                lemma_rel_index_at(v, mid as int);
            }
            return Some(mid);
        } else if o < 0 {
            assert forall|b: int| 0 <= b < mid + 1 implies chars_lt(#[trigger] v[b].rel, key@) by {
                if b < mid {
                    assert(chars_lt(v[b].rel, v[mid as int].rel));
                    lemma_chars_order(v[b].rel, v[mid as int].rel, key@);
                }
            }
            lo = mid + 1;
        } else {
            assert forall|b: int| mid <= b < s.len() implies chars_lt(key@, #[trigger] v[b].rel) by {
                if b > mid {
                    assert(chars_lt(v[mid as int].rel, v[b].rel));
                    lemma_chars_order(key@, v[mid as int].rel, v[b].rel);
                }
            }
            hi = mid;
        }
    }
    proof {
        lemma_rel_index(v, key@);
        let k = rel_index(v, key@);
        if k >= 0 {
            lemma_chars_order(key@, key@, key@);
        }
    }
    None
}

/// Whether each entry of `side` is unchanged across the manifests.
fn same_flags(old: &[SnapshotEntry], new: &[SnapshotEntry], side_old: bool) -> (r: Vec<bool>)
    requires
        rels_increasing(entries_view(old@)),
        rels_increasing(entries_view(new@)),
    ensures
        r.len() == (if side_old {
            old.len()
        } else {
            new.len()
        }),
        forall|a: int|
            0 <= a < r.len() ==> #[trigger] r@[a] == same_both(
                entries_view(old@),
                entries_view(new@),
                (if side_old {
                    entries_view(old@)
                } else {
                    entries_view(new@)
                })[a].rel,
            ),
{
    let ghost vo = entries_view(old@);
    let ghost vn = entries_view(new@);
    let side = if side_old {
        old
    } else {
        new
    };
    let other = if side_old {
        new
    } else {
        old
    };
    let ghost vs = entries_view(side@);
    let ghost vt = entries_view(other@);
    let mut out: Vec<bool> = Vec::new();
    for a in 0..side.len()
        invariant
            vo == entries_view(old@),
            vn == entries_view(new@),
            vs == entries_view(side@),
            vt == entries_view(other@),
            vs == (if side_old {
                vo
            } else {
                vn
            }),
            vt == (if side_old {
                vn
            } else {
                vo
            }),
            rels_increasing(vs),
            rels_increasing(vt),
            out.len() == a,
            forall|q: int| 0 <= q < a ==> #[trigger] out@[q] == same_both(vo, vn, vs[q].rel),
    {
        assert(vs[a as int] == side@[a as int]@);
        let key = chars_of(side[a].rel.as_str());
        let k = search_rel(other, &key);
        proof {
            lemma_rel_index_at(vs, a as int);
        }
        let f = match k {
            Some(b) => {
                assert(vt[b as int] == other@[b as int]@);
                if side_old {
                    identical_exec(&side[a], &other[b])
                } else {
                    identical_exec(&other[b], &side[a])
                }
            },
            None => false,
        };
        out.push(f);
    }
    out
}

/// Whether some entry of `s` flagged not-unchanged lies under `d`.
pub open spec fn dirty_under(s: Seq<EntryView>, flags: Seq<bool>, d: Seq<char>) -> bool {
    exists|a: int| 0 <= a < s.len() && !flags[a] && #[trigger] under(d, s[a].rel)
}

/// Every ancestor of `r` that is an entry of `old` is marked.
pub open spec fn ancestors_marked(old: Seq<EntryView>, marks: Seq<bool>, r: Seq<char>) -> bool {
    forall|k: int|
        #[trigger] slash_at(r, k) && 0 <= rel_index(old, r.take(k)) < marks.len() ==> marks[rel_index(
            old,
            r.take(k),
        )]
}

/// Mark, in `marks`, every directory of `old` that holds an entry of
/// `s` whose flag is off.
fn mark_dirty_ancestors(
    base: &[SnapshotEntry],
    s: &[SnapshotEntry],
    flags: &Vec<bool>,
    marks: &mut Vec<bool>,
)
    requires
        rels_increasing(entries_view(base@)),
        flags.len() == s.len(),
        old(marks).len() == base.len(),
    ensures
        final(marks).len() == base.len(),
        forall|i: int| 0 <= i < base.len() && old(marks)@[i] ==> #[trigger] final(marks)@[i],
        forall|i: int|
            0 <= i < base.len() && #[trigger] final(marks)@[i] && !old(marks)@[i] ==> dirty_under(
                entries_view(s@),
                flags@,
                entries_view(base@)[i].rel,
            ),
        forall|a: int|
            0 <= a < s.len() && !flags@[a] ==> ancestors_marked(
                entries_view(base@),
                final(marks)@,
                #[trigger] entries_view(s@)[a].rel,
            ),
{
    let ghost vo = entries_view(base@);
    let ghost vs = entries_view(s@);
    let ghost start = marks@;
    for a in 0..s.len()
        invariant
            vo == entries_view(base@),
            vs == entries_view(s@),
            rels_increasing(vo),
            flags.len() == s.len(),
            marks.len() == base.len(),
            start.len() == base.len(),
            forall|i: int| 0 <= i < base.len() && start[i] ==> #[trigger] marks@[i],
            forall|i: int|
                0 <= i < base.len() && #[trigger] marks@[i] && !start[i] ==> dirty_under(
                    vs,
                    flags@,
                    vo[i].rel,
                ),
            forall|q: int|
                0 <= q < a && !flags@[q] ==> ancestors_marked(vo, marks@, #[trigger] vs[q].rel),
    {
        if !flags[a] {
            let r = chars_of(s[a].rel.as_str());
            assert(r@ == vs[a as int].rel);
            for k in 0..r.len()
                invariant
                    vo == entries_view(base@),
                    vs == entries_view(s@),
                    rels_increasing(vo),
                    flags.len() == s.len(),
                    !flags@[a as int],
                    a < s.len(),
                    r@ == vs[a as int].rel,
                    marks.len() == base.len(),
                    start.len() == base.len(),
                    forall|i: int| 0 <= i < base.len() && start[i] ==> #[trigger] marks@[i],
                    forall|i: int|
                        0 <= i < base.len() && #[trigger] marks@[i] && !start[i] ==> dirty_under(
                            vs,
                            flags@,
                            vo[i].rel,
                        ),
                    forall|q: int|
                        0 <= q < a && !flags@[q] ==> ancestors_marked(
                            vo,
                            marks@,
                            #[trigger] vs[q].rel,
                        ),
                    forall|k2: int|
                        #[trigger] slash_at(r@, k2) && k2 < k && 0 <= rel_index(vo, r@.take(k2))
                            < marks.len() ==> marks@[rel_index(vo, r@.take(k2))],
            {
                if r[k] == '/' {
                    let prefix = crate::text::slice_chars(&r, 0, k);
                    assert(prefix@ =~= r@.take(k as int));
                    match search_rel(base, &prefix) {
                        Some(i) => {
                            let ghost before = marks@;
                            proof {
                                lemma_rel_index(vo, prefix@);
                                assert(under(vo[i as int].rel, vs[a as int].rel));
                            }
                            marks.set(i, true);
                            assert forall|q: int|
                                0 <= q < a && !flags@[q] implies ancestors_marked(
                                vo,
                                marks@,
                                #[trigger] vs[q].rel,
                            ) by {
                                assert(ancestors_marked(vo, before, vs[q].rel));
                            }
                        },
                        None => {},
                    }
                }
            }
            assert(ancestors_marked(vo, marks@, vs[a as int].rel));
        }
    }
}

impl SnapshotDiff {
    /// Maximal fully unchanged directory units between two canonical
    /// manifests, longest path first, then in path order.
    pub fn unchanged_units(old: &[SnapshotEntry], new: &[SnapshotEntry]) -> (r: Vec<String>)
        requires
            rels_increasing(entries_view(old@)),
            rels_increasing(entries_view(new@)),
        ensures
            forall|x: Seq<char>|
                strs_view(r@).contains(x) <==> is_unit(entries_view(old@), entries_view(new@), x),
            forall|i: int, j: int|
                0 <= i < j < r.len() ==> unit_before(#[trigger] r@[i]@, #[trigger] r@[j]@),
    {
        let ghost vo = entries_view(old@);
        let ghost vn = entries_view(new@);
        let same_old = same_flags(old, new, true);
        let same_new = same_flags(old, new, false);
        let mut marks: Vec<bool> = Vec::new();
        for i in 0..old.len()
            invariant
                marks.len() == i,
                forall|q: int| 0 <= q < i ==> !#[trigger] marks@[q],
        {
            marks.push(false);
        }
        let ghost m0 = marks@;
        mark_dirty_ancestors(old, old, &same_old, &mut marks);
        let ghost m1 = marks@;
        mark_dirty_ancestors(old, new, &same_new, &mut marks);
        let ghost m2 = marks@;
        // fully[i] says whether old[i] is a fully unchanged directory.
        let mut fully: Vec<bool> = Vec::new();
        for i in 0..old.len()
            invariant
                vo == entries_view(old@),
                vn == entries_view(new@),
                rels_increasing(vo),
                rels_increasing(vn),
                fully.len() == i,
                marks@ == m2,
                m2.len() == old.len(),
                m1.len() == old.len(),
                same_old.len() == old.len(),
                same_new.len() == new.len(),
                forall|a: int| 0 <= a < old.len() ==> #[trigger] same_old@[a] == same_both(vo, vn, vo[a].rel),
                forall|b: int| 0 <= b < new.len() ==> #[trigger] same_new@[b] == same_both(vo, vn, vn[b].rel),
                forall|q: int| 0 <= q < old.len() ==> !#[trigger] m0[q],
                m0.len() == old.len(),
                forall|q: int| 0 <= q < old.len() && m0[q] ==> #[trigger] m1[q],
                forall|q: int| 0 <= q < old.len() && m1[q] ==> #[trigger] m2[q],
                forall|q: int|
                    0 <= q < old.len() && #[trigger] m1[q] && !m0[q] ==> dirty_under(vo, same_old@, vo[q].rel),
                forall|q: int|
                    0 <= q < old.len() && #[trigger] m2[q] && !m1[q] ==> dirty_under(vn, same_new@, vo[q].rel),
                forall|a: int|
                    0 <= a < old.len() && !same_old@[a] ==> ancestors_marked(vo, m1, #[trigger] vo[a].rel),
                forall|b: int|
                    0 <= b < new.len() && !same_new@[b] ==> ancestors_marked(vo, m2, #[trigger] vn[b].rel),
                forall|q: int| 0 <= q < i ==> #[trigger] fully@[q] == fully_unchanged(vo, vn, vo[q].rel),
        {
            assert(vo[i as int] == old@[i as int]@);
            let f = old[i].kind == EntryKind::Dir && same_old[i] && !marks[i];
            proof {
                lemma_rel_index_at(vo, i as int);
                let d = vo[i as int].rel;
                lemma_rel_index(vn, d);
                if f {
                    assert forall|a: int| 0 <= a < old.len() && under(d, #[trigger] vo[a].rel) implies same_both(
                        vo,
                        vn,
                        vo[a].rel,
                    ) by {
                        if !same_old@[a] {
                            lemma_rel_index_at(vo, a);
                            assert(slash_at(vo[a].rel, d.len() as int));
                            assert(vo[a].rel.take(d.len() as int) == d);
                            assert(ancestors_marked(vo, m1, vo[a].rel));
                            assert(m1[i as int]);
                        }
                    }
                    assert forall|b: int| 0 <= b < new.len() && under(d, #[trigger] vn[b].rel) implies same_both(
                        vo,
                        vn,
                        vn[b].rel,
                    ) by {
                        if !same_new@[b] {
                            assert(slash_at(vn[b].rel, d.len() as int));
                            assert(vn[b].rel.take(d.len() as int) == d);
                            assert(ancestors_marked(vo, m2, vn[b].rel));
                        }
                    }
                }
                if fully_unchanged(vo, vn, d) {
                    if m2[i as int] {
                        if m1[i as int] {
                            assert(!m0[i as int]);
                            assert(dirty_under(vo, same_old@, d));
                            let a = choose|a: int| 0 <= a < vo.len() && !same_old@[a] && #[trigger] under(d, vo[a].rel);
                            assert(same_old@[a]);
                        } else {
                            assert(dirty_under(vn, same_new@, d));
                            let b = choose|b: int| 0 <= b < vn.len() && !same_new@[b] && #[trigger] under(d, vn[b].rel);
                            assert(same_new@[b]);
                        }
                    }
                }
            }
            fully.push(f);
        }
        // A unit has no fully unchanged ancestor.
        let mut units: Vec<String> = Vec::new();
        for i in 0..old.len()
            invariant
                vo == entries_view(old@),
                vn == entries_view(new@),
                rels_increasing(vo),
                fully.len() == old.len(),
                forall|q: int| 0 <= q < old.len() ==> #[trigger] fully@[q] == fully_unchanged(vo, vn, vo[q].rel),
                forall|x: Seq<char>|
                    #[trigger] strs_view(units@).contains(x) <==> (0 <= rel_index(vo, x) < i && is_unit(
                        vo,
                        vn,
                        x,
                    )),
                forall|p: int, q: int|
                    0 <= p < q < units.len() ==> unit_before(#[trigger] units@[p]@, #[trigger] units@[q]@),
                forall|p: int| 0 <= p < units.len() ==> (i < old.len() ==> chars_lt(
                    #[trigger] units@[p]@,
                    vo[i as int].rel,
                )),
        {
            assert(vo[i as int] == old@[i as int]@);
            let mut unit = fully[i];
            if unit {
                let r = chars_of(old[i].rel.as_str());
                for k in 0..r.len()
                    invariant
                        vo == entries_view(old@),
                        vn == entries_view(new@),
                        rels_increasing(vo),
                        fully.len() == old.len(),
                        forall|q: int| 0 <= q < old.len() ==> #[trigger] fully@[q] == fully_unchanged(vo, vn, vo[q].rel),
                        i < old.len(),
                        r@ == vo[i as int].rel,
                        unit ==> forall|k2: int|
                            #[trigger] slash_at(r@, k2) && k2 < k ==> !fully_unchanged(vo, vn, r@.take(k2)),
                        !unit ==> exists|k2: int|
                            #[trigger] slash_at(r@, k2) && fully_unchanged(vo, vn, r@.take(k2)),
                {
                    if unit && r[k] == '/' {
                        let prefix = crate::text::slice_chars(&r, 0, k);
                        assert(prefix@ =~= r@.take(k as int));
                        proof {
                            lemma_rel_index(vo, prefix@);
                        }
                        match search_rel(old, &prefix) {
                            Some(j) => {
                                if fully[j] {
                                    assert(slash_at(r@, k as int));
                                    unit = false;
                                }
                            },
                            None => {},
                        }
                    }
                }
                proof {
                    if unit {
                        assert forall|k2: int| #[trigger] slash_at(r@, k2) implies !fully_unchanged(
                            vo,
                            vn,
                            r@.take(k2),
                        ) by {}
                    }
                }
            }
            let ghost d = vo[i as int].rel;
            assert(unit == is_unit(vo, vn, d));
            proof {
                lemma_rel_index_at(vo, i as int);
                assert forall|x: Seq<char>| 0 <= #[trigger] rel_index(vo, x) < i + 1 && x != d implies 0
                    <= rel_index(vo, x) < i by {
                    lemma_rel_index(vo, x);
                }
            }
            let ghost before_units = strs_view(units@);
            if unit {
                let name = old[i].rel.clone();
                let n = utf8_len_exec(name.as_str());
                let mut p: usize = 0;
                while p < units.len() && utf8_len_exec(units[p].as_str()) >= n
                    invariant
                        p <= units.len(),
                        n == utf8_len(d),
                        name@ == d,
                        forall|q: int| 0 <= q < p ==> utf8_len(#[trigger] units@[q]@) >= n,
                    decreases units.len() - p,
                {
                    p = p + 1;
                }
                let ghost before = units@;
                units.insert(p, name);
                proof {
                    let sv = strs_view(units@);
                    assert(strs_view(units@) =~= strs_view(before).insert(p as int, d));
                    assert forall|x: Seq<char>| #[trigger] sv.contains(x) <==> (before_units.contains(x)
                        || x == d) by {
                        if before_units.contains(x) {
                            let k = choose|k: int| 0 <= k < before_units.len() && before_units[k] == x;
                            if k < p {
                                assert(sv[k] == x);
                            } else {
                                assert(sv[k + 1] == x);
                            }
                        }
                        if x == d {
                            assert(sv[p as int] == x);
                        }
                        if sv.contains(x) && x != d {
                            let k = choose|k: int| 0 <= k < sv.len() && sv[k] == x;
                            if k < p {
                                assert(before_units[k] == x);
                            } else if k > p {
                                assert(before_units[k - 1] == x);
                            }
                        }
                    }
                    assert forall|a: int, b: int| 0 <= a < b < units.len() implies unit_before(
                        #[trigger] units@[a]@,
                        #[trigger] units@[b]@,
                    ) by {
                        if a < p && b == p {
                            assert(chars_lt(before[a]@, d));
                        } else if a == p && b > p {
                            if b - 1 > p {
                                assert(unit_before(before[p as int]@, before[b - 1]@));
                            }
                        } else if a < p && b > p {
                            assert(unit_before(before[a]@, before[b - 1]@));
                        } else if b < p {
                            assert(unit_before(before[a]@, before[b]@));
                        } else {
                            assert(unit_before(before[a - 1]@, before[b - 1]@));
                        }
                    }
                }
            }
            proof {
                assert forall|x: Seq<char>| #[trigger] strs_view(units@).contains(x) <==> (0 <= rel_index(
                    vo,
                    x,
                ) < i + 1 && is_unit(vo, vn, x)) by {
                    lemma_rel_index(vo, x);
                    if !unit {
                        assert(strs_view(units@) == before_units);
                    }
                }
                if i + 1 < old.len() {
                    assert(chars_lt(vo[i as int].rel, vo[i + 1].rel));
                    assert forall|p: int| 0 <= p < units.len() implies chars_lt(#[trigger] units@[p]@, vo[i + 1].rel) by {
                        lemma_chars_order(units@[p]@, vo[i as int].rel, vo[i + 1].rel);
                    }
                }
            }
        }
        proof {
            assert forall|x: Seq<char>| is_unit(vo, vn, x) implies strs_view(units@).contains(x) by {
                lemma_rel_index(vo, x);
            }
        }
        units
    }
}

} // verus!
