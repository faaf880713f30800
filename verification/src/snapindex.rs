//! Selection index for incremental snapshot rebuilds, and the snapshot
//! last-use registry.
//!
//! One line per (repo root, pattern, heavy directory) remembers which
//! published snapshots recently served that exact heavy directory:
//!
//! ```text
//! <escaped-repo-root>\t<escaped-pattern>\t<escaped-heavy-dir>\t<hash,hash,hash>\t<mtime-secs>
//! ```
//!
//! - The three text fields use the mirror percent escaping.
//! - The ring holds up to [`MAX_RING`] manifest hashes, newest first.
//! - `mtime-secs` is unix seconds of the last publish through this key
//!   (hits reorder the ring but do not refresh it).
//!
//! Parsing is tolerant: a line that does not validate is dropped, the
//! torn tail after the last newline is ignored, and the newest line
//! wins for a repeated key.
//!
//! The last-use registry ([`SnapshotLru`]) holds one
//! `<hash>\t<last-use-unix-secs>` line per snapshot with the same
//! conventions. Both are fed by an append-only journal of `publish`,
//! `hit` and `touch` lines, replayed in order on load.

use vstd::prelude::*;

use crate::mirror::{
    escape_chars, escape_spec, lemma_escape_framing_free, lemma_record_lines_terminated,
    lemma_terminated_body,
    lemma_unescape_escape, push_line, tab_line, terminated_spec, unescape_chars, unescape_spec,
};
use crate::text::{
    chars_eq, chars_of, complete_body, last_index_spec, dec_chars, extend_chars, dec_spec, join_chars, join_spec, lemma_digits_plain,
    lemma_fmt_uint, lemma_join_free, lemma_parse_fmt, lemma_split_join, nonempty_fn, parse_u64,
    parse_u64_spec, pieces_free_of, record_lines, record_lines_of, seqs_of, split_chars,
    split_spec, str_eq, string_of,
};
use crate::{from_hex_spec, hex_spec, lemma_hex_round_trip, ContentId};

verus! {

/// Ring capacity: how many recent manifest hashes one key remembers.
pub const MAX_RING: usize = 3;

/// The bytes of each id, in order.
pub open spec fn ids_view(ids: Seq<ContentId>) -> Seq<Seq<u8>> {
    ids.map_values(|h: ContentId| h.0@)
}

/// At most the first `n` items of `s`.
pub open spec fn take_at_most(s: Seq<Seq<u8>>, n: nat) -> Seq<Seq<u8>> {
    if s.len() > n {
        s.take(n as int)
    } else {
        s
    }
}

/// The predicate "is not `h`".
pub open spec fn not_h(h: Seq<u8>) -> spec_fn(Seq<u8>) -> bool {
    |x: Seq<u8>| x != h
}

/// The entries of `ring` other than `h`, in order.
pub open spec fn ring_without(ring: Seq<Seq<u8>>, h: Seq<u8>) -> Seq<Seq<u8>> {
    ring.filter(not_h(h))
}

/// `h` moved to the front of `ring`: `h`, then every other entry in
/// order, cut to [`MAX_RING`] entries.
pub open spec fn ring_bump(ring: Seq<Seq<u8>>, h: Seq<u8>) -> Seq<Seq<u8>> {
    take_at_most(seq![h] + ring_without(ring, h), MAX_RING as nat)
}

/// The ring after moving `h` to the front, as [`ring_bump`] states.
fn bump_ring(ring: &Vec<ContentId>, h: &ContentId) -> (r: Vec<ContentId>)
    ensures
        ids_view(r@) == ring_bump(ids_view(ring@), h.0@),
{
    let ghost rv = ids_view(ring@);
    let ghost hv = h.0@;
    let mut out: Vec<ContentId> = Vec::new();
    out.push(*h);
    assert(ring_without(rv.take(0), hv) =~= Seq::<Seq<u8>>::empty());
    assert(ids_view(out@) =~= take_at_most(seq![hv] + ring_without(rv.take(0), hv), 3));
    for i in 0..ring.len()
        invariant
            rv == ids_view(ring@),
            hv == h.0@,
            ids_view(out@) == take_at_most(seq![hv] + ring_without(rv.take(i as int), hv), 3),
    {
        let ghost a = seq![hv] + ring_without(rv.take(i as int), hv);
        proof {
            rv.take(i as int).lemma_filter_push(rv[i as int], not_h(hv));
            assert(rv.take(i as int).push(rv[i as int]) =~= rv.take(i + 1));
        }
        let ghost b = seq![hv] + ring_without(rv.take(i + 1), hv);
        assert(ring[i as int].0@ == rv[i as int]);
        let same = ring[i] == *h;
        if same {
            assert(b =~= a);
        } else {
            assert(b =~= a.push(rv[i as int]));
            if out.len() < MAX_RING {
                let ghost before = out@;
                assert(ids_view(before).len() == before.len());
                assert(a.len() < 3);
                out.push(ring[i]);
                assert(ids_view(out@) =~= ids_view(before).push(rv[i as int]));
                assert(ids_view(out@) =~= take_at_most(b, 3));
            } else {
                assert(take_at_most(b, 3) =~= take_at_most(a, 3));
            }
        }
    }
    assert(rv.take(ring.len() as int) =~= rv);
    out
}

/// Facts about [`ring_bump`]: `h` leads, at most [`MAX_RING`] entries,
/// every entry came from `h` or the old ring, and a ring without
/// duplicates stays without.
pub proof fn lemma_ring_bump(ring: Seq<Seq<u8>>, h: Seq<u8>)
    ensures
        ring_bump(ring, h).len() >= 1,
        ring_bump(ring, h).len() <= MAX_RING,
        ring_bump(ring, h)[0] == h,
        forall|i: int|
            0 <= i < ring_bump(ring, h).len() ==> (#[trigger] ring_bump(ring, h)[i] == h
                || ring.contains(ring_bump(ring, h)[i])),
        ring.no_duplicates() ==> ring_bump(ring, h).no_duplicates(),
{
    broadcast use vstd::seq_lib::group_filter_ensures;

    let w = ring_without(ring, h);
    let a = seq![h] + w;
    let b = ring_bump(ring, h);
    assert(b.len() >= 1 && b[0] == h) by {
        assert(a[0] == h);
    }
    assert forall|i: int| 0 <= i < b.len() implies #[trigger] b[i] == h || ring.contains(b[i]) by {
        assert(b[i] == a[i]);
        if i > 0 {
            assert(a[i] == w[i - 1]);
            assert(w.contains(w[i - 1]));
            ring.lemma_filter_contains_rev(not_h(h), w[i - 1]);
        }
    }
    if ring.no_duplicates() {
        lemma_filter_no_duplicates(ring, h);
        assert forall|i: int, j: int| 0 <= i < j < b.len() implies b[i] != b[j] by {
            assert(b[i] == a[i] && b[j] == a[j]);
            assert(a[j] == w[j - 1]);
            if i == 0 {
                assert(not_h(h)(w[j - 1]));
            } else {
                assert(a[i] == w[i - 1]);
            }
        }
    }
}

proof fn lemma_filter_no_duplicates(ring: Seq<Seq<u8>>, h: Seq<u8>)
    requires
        ring.no_duplicates(),
    ensures
        ring_without(ring, h).no_duplicates(),
    decreases ring.len(),
{
    if ring.len() > 0 {
        let init = ring.drop_last();
        let last = ring.last();
        assert(init.no_duplicates());
        lemma_filter_no_duplicates(init, h);
        init.lemma_filter_push(last, not_h(h));
        assert(init.push(last) =~= ring);
        let fi = ring_without(init, h);
        if last != h {
            assert(ring_without(ring, h) == fi.push(last));
            assert(!init.contains(last)) by {
                if init.contains(last) {
                    let k = choose|k: int| 0 <= k < init.len() && init[k] == last;
                    assert(ring[k] == ring[ring.len() - 1]);
                }
            }
            assert(!fi.contains(last)) by {
                if fi.contains(last) {
                    init.lemma_filter_contains_rev(not_h(h), last);
                }
            }
            let r = fi.push(last);
            assert forall|i: int, j: int| 0 <= i < j < r.len() implies r[i] != r[j] by {
                if j == fi.len() {
                    assert(fi.contains(r[i]));
                }
            }
        } else {
            assert(ring_without(ring, h) == fi);
        }
    } else {
        assert(ring_without(ring, h) =~= ring);
    }
}

/// One key's selection record. The three text fields are kept
/// unescaped; escaping happens only when the record is written.
#[derive(Debug, Clone, PartialEq, Eq)]
pub struct SelectionRecord {
    /// Absolute path of the repository the selection was made in.
    pub repo_root: String,
    /// The include-pattern string that selected the heavy directory.
    pub pattern: String,
    /// The heavy directory's path relative to `repo_root`.
    pub heavy_dir: String,
    /// Manifest hashes, newest first.
    pub ring: Vec<ContentId>,
    /// Unix seconds of the last publish under this key.
    pub mtime_secs: u64,
}

/// A selection record as plain values.
pub struct RecordView {
    pub repo_root: Seq<char>,
    pub pattern: Seq<char>,
    pub heavy_dir: Seq<char>,
    pub ring: Seq<Seq<u8>>,
    pub mtime_secs: u64,
}

impl View for SelectionRecord {
    type V = RecordView;

    open spec fn view(&self) -> RecordView {
        RecordView {
            repo_root: self.repo_root@,
            pattern: self.pattern@,
            heavy_dir: self.heavy_dir@,
            ring: ids_view(self.ring@),
            mtime_secs: self.mtime_secs,
        }
    }
}

/// The whole index: every valid record, in file order.
#[derive(Debug, Clone, Default, PartialEq, Eq)]
pub struct SelectionIndex {
    /// All valid records.
    pub records: Vec<SelectionRecord>,
}

pub open spec fn records_view(recs: Seq<SelectionRecord>) -> Seq<RecordView> {
    recs.map_values(|r: SelectionRecord| r@)
}

impl View for SelectionIndex {
    type V = Seq<RecordView>;

    open spec fn view(&self) -> Seq<RecordView> {
        records_view(self.records@)
    }
}

/// `r` is the record of the key (repo root, pattern, heavy dir).
pub open spec fn same_key(
    r: RecordView,
    repo_root: Seq<char>,
    pattern: Seq<char>,
    heavy_dir: Seq<char>,
) -> bool {
    r.repo_root == repo_root && r.pattern == pattern && r.heavy_dir == heavy_dir
}

/// Index of the first record of the key, or -1.
pub open spec fn find_key(
    recs: Seq<RecordView>,
    repo_root: Seq<char>,
    pattern: Seq<char>,
    heavy_dir: Seq<char>,
) -> int
    decreases recs.len(),
{
    if recs.len() == 0 {
        -1
    } else {
        let j = find_key(recs.drop_last(), repo_root, pattern, heavy_dir);
        if j >= 0 {
            j
        } else if same_key(recs.last(), repo_root, pattern, heavy_dir) {
            recs.len() - 1
        } else {
            -1
        }
    }
}

pub proof fn lemma_find_key(
    recs: Seq<RecordView>,
    repo_root: Seq<char>,
    pattern: Seq<char>,
    heavy_dir: Seq<char>,
)
    ensures
        -1 <= find_key(recs, repo_root, pattern, heavy_dir) < recs.len(),
        find_key(recs, repo_root, pattern, heavy_dir) >= 0 ==> same_key(
            recs[find_key(recs, repo_root, pattern, heavy_dir)],
            repo_root,
            pattern,
            heavy_dir,
        ),
        forall|j: int|
            0 <= j < recs.len() && (find_key(recs, repo_root, pattern, heavy_dir) == -1 || j
                < find_key(recs, repo_root, pattern, heavy_dir)) ==> !same_key(
                #[trigger] recs[j],
                repo_root,
                pattern,
                heavy_dir,
            ),
    decreases recs.len(),
{
    if recs.len() > 0 {
        lemma_find_key(recs.drop_last(), repo_root, pattern, heavy_dir);
        assert forall|j: int| 0 <= j < recs.len() - 1 implies recs.drop_last()[j] == #[trigger] recs[j] by {}
    }
}

/// The record of a key that has none yet: empty ring, mtime 0.
pub open spec fn fresh_record(
    repo_root: Seq<char>,
    pattern: Seq<char>,
    heavy_dir: Seq<char>,
) -> RecordView {
    RecordView { repo_root, pattern, heavy_dir, ring: Seq::empty(), mtime_secs: 0 }
}

/// The key's current record, or a fresh one.
pub open spec fn keyed(
    recs: Seq<RecordView>,
    repo_root: Seq<char>,
    pattern: Seq<char>,
    heavy_dir: Seq<char>,
) -> RecordView {
    let k = find_key(recs, repo_root, pattern, heavy_dir);
    if k >= 0 {
        recs[k]
    } else {
        fresh_record(repo_root, pattern, heavy_dir)
    }
}

/// `r` written as the key's record: in place when the key exists,
/// appended otherwise.
pub open spec fn put_keyed(
    recs: Seq<RecordView>,
    repo_root: Seq<char>,
    pattern: Seq<char>,
    heavy_dir: Seq<char>,
    r: RecordView,
) -> Seq<RecordView> {
    let k = find_key(recs, repo_root, pattern, heavy_dir);
    if k >= 0 {
        recs.update(k, r)
    } else {
        recs.push(r)
    }
}

/// The index after a publish of `h` at `now` under the key.
pub open spec fn publish_spec(
    recs: Seq<RecordView>,
    repo_root: Seq<char>,
    pattern: Seq<char>,
    heavy_dir: Seq<char>,
    h: Seq<u8>,
    now: u64,
) -> Seq<RecordView> {
    let b = keyed(recs, repo_root, pattern, heavy_dir);
    put_keyed(
        recs,
        repo_root,
        pattern,
        heavy_dir,
        RecordView {
            repo_root: b.repo_root,
            pattern: b.pattern,
            heavy_dir: b.heavy_dir,
            ring: ring_bump(b.ring, h),
            mtime_secs: now,
        },
    )
}

/// The ring after a hit of `h`: unchanged when `h` already leads,
/// otherwise `h` moves to the front.
pub open spec fn hit_ring(ring: Seq<Seq<u8>>, h: Seq<u8>) -> Seq<Seq<u8>> {
    if ring.len() > 0 && ring[0] == h {
        ring
    } else {
        ring_bump(ring, h)
    }
}

/// The index after a hit of `h` under the key: the ring as
/// [`hit_ring`] says, the mtime untouched.
pub open spec fn hit_spec(
    recs: Seq<RecordView>,
    repo_root: Seq<char>,
    pattern: Seq<char>,
    heavy_dir: Seq<char>,
    h: Seq<u8>,
) -> Seq<RecordView> {
    let b = keyed(recs, repo_root, pattern, heavy_dir);
    put_keyed(
        recs,
        repo_root,
        pattern,
        heavy_dir,
        RecordView {
            repo_root: b.repo_root,
            pattern: b.pattern,
            heavy_dir: b.heavy_dir,
            ring: hit_ring(b.ring, h),
            mtime_secs: b.mtime_secs,
        },
    )
}

impl SelectionRecord {
    fn matches(&self, repo_root: &str, pattern: &str, heavy_dir: &str) -> (r: bool)
        ensures
            r == same_key(self@, repo_root@, pattern@, heavy_dir@),
    {
        str_eq(self.repo_root.as_str(), repo_root) && str_eq(self.pattern.as_str(), pattern)
            && str_eq(self.heavy_dir.as_str(), heavy_dir)
    }
}

impl SelectionIndex {
    /// An index with no records.
    pub fn new() -> (r: SelectionIndex)
        ensures
            r@ == Seq::<RecordView>::empty(),
    {
        let r = SelectionIndex { records: Vec::new() };
        assert(r@ =~= Seq::<RecordView>::empty());
        r
    }

    /// Position of the key's record.
    fn position(&self, repo_root: &str, pattern: &str, heavy_dir: &str) -> (r: Option<usize>)
        ensures
            match r {
                Some(k) => k as int == find_key(self@, repo_root@, pattern@, heavy_dir@),
                None => find_key(self@, repo_root@, pattern@, heavy_dir@) == -1,
            },
    {
        let ghost v = self@;
        for i in 0..self.records.len()
            invariant
                v == self@,
                find_key(v.take(i as int), repo_root@, pattern@, heavy_dir@) == -1,
        {
            assert(v.take(i + 1).drop_last() =~= v.take(i as int));
            assert(self.records[i as int]@ == v[i as int]);
            if self.records[i].matches(repo_root, pattern, heavy_dir) {
                proof {
                    lemma_find_prefix(v, i as int, repo_root@, pattern@, heavy_dir@);
                }
                return Some(i);
            }
        }
        assert(v.take(self.records.len() as int) =~= v);
        None
    }

    /// Index of the key's record, appending a fresh one when the key is
    /// new.
    fn ensure_record(&mut self, repo_root: &str, pattern: &str, heavy_dir: &str) -> (k: usize)
        ensures
            k < final(self).records.len(),
            find_key(old(self)@, repo_root@, pattern@, heavy_dir@) >= 0 ==> final(self)@ == old(
                self,
            )@ && k as int == find_key(old(self)@, repo_root@, pattern@, heavy_dir@),
            find_key(old(self)@, repo_root@, pattern@, heavy_dir@) == -1 ==> final(self)@ == old(
                self,
            )@.push(fresh_record(repo_root@, pattern@, heavy_dir@)) && k == old(self)@.len(),
    {
        match self.position(repo_root, pattern, heavy_dir) {
            Some(k) => {
                proof {
                    lemma_find_key(self@, repo_root@, pattern@, heavy_dir@);
                }
                k
            },
            None => {
                let rec = SelectionRecord {
                    repo_root: repo_root.to_owned(),
                    pattern: pattern.to_owned(),
                    heavy_dir: heavy_dir.to_owned(),
                    ring: Vec::new(),
                    mtime_secs: 0,
                };
                self.records.push(rec);
                assert(rec@.ring =~= Seq::<Seq<u8>>::empty());
                assert(self@ =~= old(self)@.push(fresh_record(repo_root@, pattern@, heavy_dir@)));
                self.records.len() - 1
            },
        }
    }

    /// Move `hash` to the front of the key's ring (dedup, cut to
    /// [`MAX_RING`]) and set the mtime to `now_secs`. Called after
    /// every successful snapshot publish.
    pub fn record_publish(
        &mut self,
        repo_root: &str,
        pattern: &str,
        heavy_dir: &str,
        hash: &ContentId,
        now_secs: u64,
    )
        ensures
            final(self)@ == publish_spec(
                old(self)@,
                repo_root@,
                pattern@,
                heavy_dir@,
                hash.0@,
                now_secs,
            ),
    {
        let ghost before = self@;
        let k = self.ensure_record(repo_root, pattern, heavy_dir);
        let ghost mid = self@;
        proof {
            lemma_find_key(before, repo_root@, pattern@, heavy_dir@);
        }
        assert(mid[k as int] == keyed(before, repo_root@, pattern@, heavy_dir@));
        let rec = {
            let cur = &self.records[k];
            SelectionRecord {
                repo_root: cur.repo_root.clone(),
                pattern: cur.pattern.clone(),
                heavy_dir: cur.heavy_dir.clone(),
                ring: bump_ring(&cur.ring, hash),
                mtime_secs: now_secs,
            }
        };
        let ghost rv = rec@;
        self.records.set(k, rec);
        assert(self@ =~= mid.update(k as int, rv));
        assert(self@ =~= publish_spec(before, repo_root@, pattern@, heavy_dir@, hash.0@, now_secs));
    }

    /// On a snapshot hit: move `hash` to the front unless it already
    /// leads; the mtime stays. A key with no record gets one.
    pub fn record_hit(&mut self, repo_root: &str, pattern: &str, heavy_dir: &str, hash: &ContentId)
        ensures
            final(self)@ == hit_spec(old(self)@, repo_root@, pattern@, heavy_dir@, hash.0@),
    {
        let ghost before = self@;
        let k = self.ensure_record(repo_root, pattern, heavy_dir);
        let ghost mid = self@;
        proof {
            lemma_find_key(before, repo_root@, pattern@, heavy_dir@);
        }
        assert(mid[k as int] == keyed(before, repo_root@, pattern@, heavy_dir@));
        let leads = self.records[k].ring.len() > 0 && self.records[k].ring[0] == *hash;
        if leads {
            assert(self@ =~= hit_spec(before, repo_root@, pattern@, heavy_dir@, hash.0@)) by {
                assert(mid[k as int].ring[0] == hash.0@);
            }
            return;
        }
        let rec = {
            let cur = &self.records[k];
            SelectionRecord {
                repo_root: cur.repo_root.clone(),
                pattern: cur.pattern.clone(),
                heavy_dir: cur.heavy_dir.clone(),
                ring: bump_ring(&cur.ring, hash),
                mtime_secs: cur.mtime_secs,
            }
        };
        let ghost rv = rec@;
        self.records.set(k, rec);
        assert(self@ =~= mid.update(k as int, rv));
        assert(self@ =~= hit_spec(before, repo_root@, pattern@, heavy_dir@, hash.0@));
    }
}

proof fn lemma_find_prefix(
    v: Seq<RecordView>,
    i: int,
    repo_root: Seq<char>,
    pattern: Seq<char>,
    heavy_dir: Seq<char>,
)
    requires
        0 <= i < v.len(),
        find_key(v.take(i), repo_root, pattern, heavy_dir) == -1,
        same_key(v[i], repo_root, pattern, heavy_dir),
    ensures
        find_key(v, repo_root, pattern, heavy_dir) == i,
    decreases v.len() - i,
{
    if i == v.len() - 1 {
        assert(v.drop_last() =~= v.take(i));
    } else {
        assert(v.drop_last().take(i) =~= v.take(i));
        lemma_find_prefix(v.drop_last(), i, repo_root, pattern, heavy_dir);
    }
}

/// Every id of the ring is 32 bytes long.
pub open spec fn ids_sized(ring: Seq<Seq<u8>>) -> bool {
    forall|i: int| 0 <= i < ring.len() ==> (#[trigger] ring[i]).len() == 32
}

/// A usable ring: one to [`MAX_RING`] distinct ids.
pub open spec fn ring_ok(ring: Seq<Seq<u8>>) -> bool {
    1 <= ring.len() <= MAX_RING && ring.no_duplicates() && ids_sized(ring)
}

/// The index invariant: every ring usable, every key at most once.
pub open spec fn index_wf(recs: Seq<RecordView>) -> bool {
    &&& forall|i: int| 0 <= i < recs.len() ==> ring_ok(#[trigger] recs[i].ring)
    &&& forall|i: int, j: int|
        #![trigger recs[i], recs[j]]
        0 <= i < j < recs.len() ==> !same_key(
            recs[j],
            recs[i].repo_root,
            recs[i].pattern,
            recs[i].heavy_dir,
        )
}

proof fn lemma_put_keyed(
    recs: Seq<RecordView>,
    repo_root: Seq<char>,
    pattern: Seq<char>,
    heavy_dir: Seq<char>,
    r: RecordView,
)
    requires
        index_wf(recs),
        ring_ok(r.ring),
        same_key(r, repo_root, pattern, heavy_dir),
    ensures
        index_wf(put_keyed(recs, repo_root, pattern, heavy_dir, r)),
        find_key(put_keyed(recs, repo_root, pattern, heavy_dir, r), repo_root, pattern, heavy_dir)
            >= 0,
        put_keyed(recs, repo_root, pattern, heavy_dir, r)[find_key(
            put_keyed(recs, repo_root, pattern, heavy_dir, r),
            repo_root,
            pattern,
            heavy_dir,
        )] == r,
        forall|j: int|
            0 <= j < recs.len() && !same_key(recs[j], repo_root, pattern, heavy_dir) ==> #[trigger] put_keyed(
                recs,
                repo_root,
                pattern,
                heavy_dir,
                r,
            )[j] == recs[j],
{
    lemma_find_key(recs, repo_root, pattern, heavy_dir);
    let k = find_key(recs, repo_root, pattern, heavy_dir);
    let p = put_keyed(recs, repo_root, pattern, heavy_dir, r);
    if k >= 0 {
        assert(p.take(k) =~= recs.take(k));
        assert(find_key(p.take(k), repo_root, pattern, heavy_dir) == -1) by {
            lemma_find_key(p.take(k), repo_root, pattern, heavy_dir);
            assert forall|j: int| 0 <= j < k implies !same_key(#[trigger] p.take(k)[j], repo_root, pattern, heavy_dir) by {
                assert(p.take(k)[j] == recs[j]);
            }
            lemma_find_none(p.take(k), repo_root, pattern, heavy_dir);
        }
        lemma_find_prefix(p, k, repo_root, pattern, heavy_dir);
        assert forall|i: int, j: int|
            #![trigger p[i], p[j]]
            0 <= i < j < p.len() implies !same_key(
            p[j],
            p[i].repo_root,
            p[i].pattern,
            p[i].heavy_dir,
        ) by {
            if i == k {
                assert(!same_key(recs[j], recs[k].repo_root, recs[k].pattern, recs[k].heavy_dir));
            } else if j == k {
                assert(!same_key(recs[k], recs[i].repo_root, recs[i].pattern, recs[i].heavy_dir));
            }
        }
    } else {
        assert(p.take(recs.len() as int) =~= recs);
        lemma_find_prefix(p, recs.len() as int, repo_root, pattern, heavy_dir);
        assert forall|i: int, j: int|
            #![trigger p[i], p[j]]
            0 <= i < j < p.len() implies !same_key(
            p[j],
            p[i].repo_root,
            p[i].pattern,
            p[i].heavy_dir,
        ) by {
            if j == recs.len() {
                assert(!same_key(recs[i], repo_root, pattern, heavy_dir));
            }
        }
    }
}

proof fn lemma_find_none(
    recs: Seq<RecordView>,
    repo_root: Seq<char>,
    pattern: Seq<char>,
    heavy_dir: Seq<char>,
)
    requires
        forall|j: int| 0 <= j < recs.len() ==> !same_key(#[trigger] recs[j], repo_root, pattern, heavy_dir),
    ensures
        find_key(recs, repo_root, pattern, heavy_dir) == -1,
    decreases recs.len(),
{
    if recs.len() > 0 {
        assert forall|j: int| 0 <= j < recs.len() - 1 implies !same_key(
            #[trigger] recs.drop_last()[j],
            repo_root,
            pattern,
            heavy_dir,
        ) by {
            assert(recs.drop_last()[j] == recs[j]);
        }
        lemma_find_none(recs.drop_last(), repo_root, pattern, heavy_dir);
        assert(recs.last() == recs[recs.len() - 1]);
    }
}

/// A publish keeps the index invariant, puts `h` at the front of the
/// key's ring with mtime `now`, and leaves every other key's record as
/// it was.
pub proof fn lemma_publish_law(
    recs: Seq<RecordView>,
    repo_root: Seq<char>,
    pattern: Seq<char>,
    heavy_dir: Seq<char>,
    h: Seq<u8>,
    now: u64,
)
    requires
        index_wf(recs),
        h.len() == 32,
    ensures
        index_wf(publish_spec(recs, repo_root, pattern, heavy_dir, h, now)),
        keyed(publish_spec(recs, repo_root, pattern, heavy_dir, h, now), repo_root, pattern, heavy_dir).ring[0]
            == h,
        keyed(publish_spec(recs, repo_root, pattern, heavy_dir, h, now), repo_root, pattern, heavy_dir).ring
            == ring_bump(keyed(recs, repo_root, pattern, heavy_dir).ring, h),
        keyed(publish_spec(recs, repo_root, pattern, heavy_dir, h, now), repo_root, pattern, heavy_dir).mtime_secs
            == now,
        forall|j: int|
            0 <= j < recs.len() && !same_key(recs[j], repo_root, pattern, heavy_dir) ==> #[trigger] publish_spec(
                recs,
                repo_root,
                pattern,
                heavy_dir,
                h,
                now,
            )[j] == recs[j],
{
    lemma_find_key(recs, repo_root, pattern, heavy_dir);
    let b = keyed(recs, repo_root, pattern, heavy_dir);
    let r = RecordView {
        repo_root: b.repo_root,
        pattern: b.pattern,
        heavy_dir: b.heavy_dir,
        ring: ring_bump(b.ring, h),
        mtime_secs: now,
    };
    lemma_ring_bump_ok(b.ring, h);
    lemma_put_keyed(recs, repo_root, pattern, heavy_dir, r);
}

proof fn lemma_ring_bump_ok(ring: Seq<Seq<u8>>, h: Seq<u8>)
    requires
        ring.no_duplicates(),
        ids_sized(ring),
        h.len() == 32,
    ensures
        ring_ok(ring_bump(ring, h)),
{
    lemma_ring_bump(ring, h);
    let b = ring_bump(ring, h);
    assert forall|i: int| 0 <= i < b.len() implies (#[trigger] b[i]).len() == 32 by {
        if b[i] != h {
            assert(ring.contains(b[i]));
        }
    }
}

/// A hit keeps the index invariant, puts `h` at the front of the key's
/// ring, never changes the key's mtime, changes nothing when `h`
/// already leads, and leaves every other key's record as it was.
pub proof fn lemma_hit_law(
    recs: Seq<RecordView>,
    repo_root: Seq<char>,
    pattern: Seq<char>,
    heavy_dir: Seq<char>,
    h: Seq<u8>,
)
    requires
        index_wf(recs),
        h.len() == 32,
    ensures
        index_wf(hit_spec(recs, repo_root, pattern, heavy_dir, h)),
        keyed(hit_spec(recs, repo_root, pattern, heavy_dir, h), repo_root, pattern, heavy_dir).ring[0]
            == h,
        keyed(hit_spec(recs, repo_root, pattern, heavy_dir, h), repo_root, pattern, heavy_dir).mtime_secs
            == keyed(recs, repo_root, pattern, heavy_dir).mtime_secs,
        find_key(recs, repo_root, pattern, heavy_dir) >= 0 && keyed(
            recs,
            repo_root,
            pattern,
            heavy_dir,
        ).ring[0] == h ==> hit_spec(recs, repo_root, pattern, heavy_dir, h) == recs,
        forall|j: int|
            0 <= j < recs.len() && !same_key(recs[j], repo_root, pattern, heavy_dir) ==> #[trigger] hit_spec(
                recs,
                repo_root,
                pattern,
                heavy_dir,
                h,
            )[j] == recs[j],
{
    lemma_find_key(recs, repo_root, pattern, heavy_dir);
    let k = find_key(recs, repo_root, pattern, heavy_dir);
    let b = keyed(recs, repo_root, pattern, heavy_dir);
    let r = RecordView {
        repo_root: b.repo_root,
        pattern: b.pattern,
        heavy_dir: b.heavy_dir,
        ring: hit_ring(b.ring, h),
        mtime_secs: b.mtime_secs,
    };
    lemma_ring_bump_ok(b.ring, h);
    lemma_put_keyed(recs, repo_root, pattern, heavy_dir, r);
    if k >= 0 && b.ring[0] == h {
        assert(r == recs[k]);
        assert(recs.update(k, r) =~= recs);
    }
}

// ---------------------------------------------------------------------------
// Reading and writing the index
// ---------------------------------------------------------------------------

/// The ids a ring field's comma-separated pieces name, later repeats
/// dropped; `None` when a piece is not a 64-hex id.
pub open spec fn parse_ring_spec(pieces: Seq<Seq<char>>) -> Option<Seq<Seq<u8>>>
    decreases pieces.len(),
{
    if pieces.len() == 0 {
        Some(Seq::empty())
    } else {
        match parse_ring_spec(pieces.drop_last()) {
            None => None,
            Some(r) => match from_hex_spec(pieces.last()) {
                None => None,
                Some(id) => if r.contains(id) {
                    Some(r)
                } else {
                    Some(r.push(id))
                },
            },
        }
    }
}

/// What one index line holds: five tab-separated fields, a non-empty
/// ring of one to [`MAX_RING`] distinct ids, valid escapes and a
/// decimal mtime; `None` for anything else.
pub open spec fn parse_record_spec(line: Seq<char>) -> Option<RecordView> {
    let f = split_spec(line, '\t');
    if f.len() != 5 || f[3].len() == 0 {
        None
    } else {
        match parse_ring_spec(split_spec(f[3], ',')) {
            None => None,
            Some(ring) => if ring.len() == 0 || ring.len() > MAX_RING {
                None
            } else {
                match (
                    unescape_spec(f[0]),
                    unescape_spec(f[1]),
                    unescape_spec(f[2]),
                    parse_u64_spec(f[4]),
                ) {
                    (Some(a), Some(b), Some(c), Some(t)) => Some(
                        RecordView {
                            repo_root: a,
                            pattern: b,
                            heavy_dir: c,
                            ring,
                            mtime_secs: t as u64,
                        },
                    ),
                    _ => None,
                }
            },
        }
    }
}

/// `r` stored under its own key: the newest line wins.
pub open spec fn index_upsert(recs: Seq<RecordView>, r: RecordView) -> Seq<RecordView> {
    put_keyed(recs, r.repo_root, r.pattern, r.heavy_dir, r)
}

/// Lines folded into an index, bad lines skipped.
pub open spec fn index_fold(recs: Seq<RecordView>, lines: Seq<Seq<char>>) -> Seq<RecordView>
    decreases lines.len(),
{
    if lines.len() == 0 {
        recs
    } else {
        let prev = index_fold(recs, lines.drop_last());
        match parse_record_spec(lines.last()) {
            Some(r) => index_upsert(prev, r),
            None => prev,
        }
    }
}

/// The index a file's text holds.
pub open spec fn index_parse_spec(text: Seq<char>) -> Seq<RecordView> {
    index_fold(Seq::empty(), record_lines(text))
}

/// The hex rendering of an id.
pub open spec fn hex_fn() -> spec_fn(Seq<u8>) -> Seq<char> {
    |id: Seq<u8>| hex_spec(id)
}

/// A ring written as comma-separated hex ids.
pub open spec fn ring_text(ring: Seq<Seq<u8>>) -> Seq<char> {
    join_spec(ring.map_values(hex_fn()), ',')
}

/// One index line, without its newline.
pub open spec fn record_line_spec(r: RecordView) -> Seq<char> {
    join_spec(
        seq![
            escape_spec(r.repo_root),
            escape_spec(r.pattern),
            escape_spec(r.heavy_dir),
            ring_text(r.ring),
            dec_spec(r.mtime_secs as nat),
        ],
        '\t',
    )
}

/// The line of each record.
pub open spec fn record_line_fn() -> spec_fn(RecordView) -> Seq<char> {
    |r: RecordView| record_line_spec(r)
}

/// The whole index file.
pub open spec fn index_text_spec(recs: Seq<RecordView>) -> Seq<char> {
    terminated_spec(recs.map_values(record_line_fn()))
}

fn contains_id(ring: &Vec<ContentId>, id: &ContentId) -> (r: bool)
    ensures
        r == ids_view(ring@).contains(id.0@),
{
    for i in 0..ring.len()
        invariant
            !ids_view(ring@).take(i as int).contains(id.0@),
    {
        assert(ids_view(ring@).take(i + 1) =~= ids_view(ring@).take(i as int).push(ring@[i as int].0@));
        if ring[i] == *id {
            assert(ids_view(ring@)[i as int] == id.0@);
            return true;
        }
    }
    assert(ids_view(ring@).take(ring.len() as int) =~= ids_view(ring@));
    false
}

proof fn lemma_ring_none_extends(ps: Seq<Seq<char>>, i: int)
    requires
        0 <= i <= ps.len(),
        parse_ring_spec(ps.take(i)) is None,
    ensures
        parse_ring_spec(ps) is None,
    decreases ps.len() - i,
{
    if i < ps.len() {
        assert(ps.take(i + 1).drop_last() =~= ps.take(i));
        lemma_ring_none_extends(ps, i + 1);
    } else {
        assert(ps.take(i) =~= ps);
    }
}

fn parse_ring(pieces: &Vec<Vec<char>>) -> (r: Option<Vec<ContentId>>)
    ensures
        match r {
            Some(v) => parse_ring_spec(seqs_of(pieces@)) == Some(ids_view(v@)),
            None => parse_ring_spec(seqs_of(pieces@)) is None,
        },
{
    let ghost ps = seqs_of(pieces@);
    let mut ring: Vec<ContentId> = Vec::new();
    assert(ps.take(0) =~= Seq::<Seq<char>>::empty());
    assert(ids_view(ring@) =~= Seq::<Seq<u8>>::empty());
    for i in 0..pieces.len()
        invariant
            ps == seqs_of(pieces@),
            parse_ring_spec(ps.take(i as int)) == Some(ids_view(ring@)),
    {
        assert(ps.take(i + 1).drop_last() =~= ps.take(i as int));
        assert(ps.take(i + 1).last() == pieces[i as int]@);
        match ContentId::from_hex_chars(&pieces[i]) {
            None => {
                proof {
                    lemma_ring_none_extends(ps, i + 1);
                }
                return None;
            },
            Some(id) => {
                if !contains_id(&ring, &id) {
                    let ghost before = ring@;
                    ring.push(id);
                    assert(ids_view(ring@) =~= ids_view(before).push(id.0@));
                }
            },
        }
    }
    assert(ps.take(pieces.len() as int) =~= ps);
    Some(ring)
}

impl SelectionRecord {
    /// Tolerant parse of one line: `None` for anything malformed,
    /// empty rings included.
    fn parse_line(line: &Vec<char>) -> (r: Option<SelectionRecord>)
        ensures
            match r {
                Some(rec) => parse_record_spec(line@) == Some(rec@),
                None => parse_record_spec(line@) is None,
            },
    {
        let f = split_chars(line, '\t');
        let ghost fs = seqs_of(f@);
        if f.len() != 5 {
            return None;
        }
        assert(fs[0] == f[0]@ && fs[1] == f[1]@ && fs[2] == f[2]@ && fs[3] == f[3]@ && fs[4]
            == f[4]@);
        if f[3].len() == 0 {
            return None;
        }
        let pieces = split_chars(&f[3], ',');
        let ring = match parse_ring(&pieces) {
            Some(r) => r,
            None => {
                return None;
            },
        };
        assert(ids_view(ring@).len() == ring.len());
        if ring.len() == 0 || ring.len() > MAX_RING {
            return None;
        }
        let a = match unescape_chars(&f[0]) {
            Ok(a) => a,
            Err(_) => {
                return None;
            },
        };
        let b = match unescape_chars(&f[1]) {
            Ok(b) => b,
            Err(_) => {
                return None;
            },
        };
        let c = match unescape_chars(&f[2]) {
            Ok(c) => c,
            Err(_) => {
                return None;
            },
        };
        let t = match parse_u64(&f[4]) {
            Some(t) => t,
            None => {
                return None;
            },
        };
        Some(
            SelectionRecord {
                repo_root: string_of(&a),
                pattern: string_of(&b),
                heavy_dir: string_of(&c),
                ring,
                mtime_secs: t,
            },
        )
    }

    /// The record's index line, newline included.
    pub fn serialize(&self) -> (r: String)
        ensures
            r@ == record_line_spec(self@).push('\n'),
    {
        let mut hexes: Vec<Vec<char>> = Vec::new();
        for i in 0..self.ring.len()
            invariant
                seqs_of(hexes@) == ids_view(self.ring@).take(i as int).map_values(hex_fn()),
        {
            let h = self.ring[i].hex_chars();
            let ghost pre = seqs_of(hexes@);
            hexes.push(h);
            assert(seqs_of(hexes@) =~= pre.push(hex_spec(self.ring@[i as int].0@)));
            assert(ids_view(self.ring@).take(i + 1).map_values(hex_fn()) =~= ids_view(
                self.ring@,
            ).take(i as int).map_values(hex_fn()).push(hex_spec(self.ring@[i as int].0@)));
        }
        assert(ids_view(self.ring@).take(self.ring.len() as int) =~= ids_view(self.ring@));
        let mut fields: Vec<Vec<char>> = Vec::new();
        fields.push(escape_chars(&chars_of(self.repo_root.as_str())));
        fields.push(escape_chars(&chars_of(self.pattern.as_str())));
        fields.push(escape_chars(&chars_of(self.heavy_dir.as_str())));
        fields.push(join_chars(&hexes, ','));
        fields.push(dec_chars(self.mtime_secs));
        assert(seqs_of(fields@) =~= seq![
            escape_spec(self.repo_root@),
            escape_spec(self.pattern@),
            escape_spec(self.heavy_dir@),
            ring_text(self@.ring),
            dec_spec(self.mtime_secs as nat),
        ]);
        let mut line = tab_line(&fields);
        line.push('\n');
        string_of(&line)
    }
}

impl SelectionIndex {
    /// `rec` stored under its own key, replacing an older record.
    fn upsert(&mut self, rec: SelectionRecord)
        ensures
            final(self)@ == index_upsert(old(self)@, rec@),
    {
        let ghost before = self@;
        proof {
            lemma_find_key(before, rec@.repo_root, rec@.pattern, rec@.heavy_dir);
        }
        match self.position(rec.repo_root.as_str(), rec.pattern.as_str(), rec.heavy_dir.as_str()) {
            Some(k) => {
                let ghost rv = rec@;
                self.records.set(k, rec);
                assert(self@ =~= before.update(k as int, rv));
            },
            None => {
                let ghost rv = rec@;
                self.records.push(rec);
                assert(self@ =~= before.push(rv));
            },
        }
    }

    /// Parse index text: every valid line, the newest line winning for
    /// a repeated key; bad lines and the torn tail are dropped.
    pub fn parse(text: &str) -> (r: SelectionIndex)
        ensures
            r@ == index_parse_spec(text@),
    {
        let lines = record_lines_of(&chars_of(text));
        let ghost ls = seqs_of(lines@);
        let mut idx = SelectionIndex::new();
        assert(ls.take(0) =~= Seq::<Seq<char>>::empty());
        for i in 0..lines.len()
            invariant
                ls == seqs_of(lines@),
                ls == record_lines(text@),
                idx@ == index_fold(Seq::empty(), ls.take(i as int)),
        {
            assert(ls.take(i + 1).drop_last() =~= ls.take(i as int));
            assert(ls.take(i + 1).last() == lines[i as int]@);
            match SelectionRecord::parse_line(&lines[i]) {
                Some(rec) => idx.upsert(rec),
                None => {},
            }
        }
        assert(ls.take(lines.len() as int) =~= ls);
        idx
    }

    /// The index file's text: one line per record, in order.
    pub fn serialize(&self) -> (r: String)
        ensures
            r@ == index_text_spec(self@),
    {
        let ghost lines = self@.map_values(record_line_fn());
        let mut out: Vec<char> = Vec::new();
        assert(lines.take(0) =~= Seq::<Seq<char>>::empty());
        for i in 0..self.records.len()
            invariant
                lines == self@.map_values(record_line_fn()),
                out@ == terminated_spec(lines.take(i as int)),
        {
            let line = self.records[i].serialize();
            let l = chars_of(line.as_str());
            let ghost t = lines.take(i as int);
            assert(lines.take(i + 1).drop_last() =~= t);
            assert(lines.take(i + 1).last() == record_line_spec(self@[i as int]));
            assert(self@[i as int] == self.records[i as int]@);
            extend_chars(&mut out, &l);
            assert(out@ =~= terminated_spec(lines.take(i + 1)));
        }
        assert(lines.take(self.records.len() as int) =~= lines);
        string_of(&out)
    }
}

proof fn lemma_hexes_plain(ring: Seq<Seq<u8>>)
    requires
        ids_sized(ring),
    ensures
        pieces_free_of(ring.map_values(hex_fn()), ','),
        pieces_free_of(ring.map_values(hex_fn()), '\t'),
        pieces_free_of(ring.map_values(hex_fn()), '\n'),
        forall|i: int|
            0 <= i < ring.len() ==> from_hex_spec(#[trigger] ring.map_values(hex_fn())[i]) == Some(
                ring[i],
            ),
{
    let hs = ring.map_values(hex_fn());
    assert forall|i: int| 0 <= i < hs.len() implies !(#[trigger] hs[i]).contains(',') && !hs[i].contains(
        '\t',
    ) && !hs[i].contains('\n') && from_hex_spec(hs[i]) == Some(ring[i]) by {
        assert(ring[i].len() == 32);
        lemma_hex_round_trip(ring[i]);
        lemma_digits_plain(hs[i], 16);
    }
}

proof fn lemma_parse_ring_hexes(ring: Seq<Seq<u8>>)
    requires
        ring.no_duplicates(),
        ids_sized(ring),
    ensures
        parse_ring_spec(ring.map_values(hex_fn())) == Some(ring),
    decreases ring.len(),
{
    let hs = ring.map_values(hex_fn());
    if ring.len() == 0 {
        assert(hs =~= Seq::<Seq<char>>::empty());
        assert(Seq::<Seq<u8>>::empty() =~= ring);
    } else {
        let init = ring.drop_last();
        let last = ring.last();
        assert(init.no_duplicates());
        assert(ids_sized(init)) by {
            assert forall|i: int| 0 <= i < init.len() implies (#[trigger] init[i]).len() == 32 by {
                assert(init[i] == ring[i]);
            }
        }
        lemma_parse_ring_hexes(init);
        assert(hs.drop_last() =~= init.map_values(hex_fn()));
        assert(ring[ring.len() - 1] == last);
        lemma_hex_round_trip(last);
        assert(hs.last() == hex_spec(last));
        assert(!init.contains(last)) by {
            if init.contains(last) {
                let k = choose|k: int| 0 <= k < init.len() && init[k] == last;
                assert(ring[k] == ring[ring.len() - 1]);
            }
        }
        assert(init.push(last) =~= ring);
    }
}

proof fn lemma_ring_text(ring: Seq<Seq<u8>>)
    requires
        ring_ok(ring),
    ensures
        split_spec(ring_text(ring), ',') == ring.map_values(hex_fn()),
        !ring_text(ring).contains('\t'),
        !ring_text(ring).contains('\n'),
        ring_text(ring).len() > 0,
{
    let hs = ring.map_values(hex_fn());
    lemma_hexes_plain(ring);
    lemma_split_join(hs, ',');
    lemma_join_free(hs, ',', '\t');
    lemma_join_free(hs, ',', '\n');
    lemma_hex_round_trip(ring[0]);
    if hs.len() == 1 {
        assert(ring_text(ring) == hs[0]);
    } else {
        assert(ring_text(ring) == join_spec(hs.drop_last(), ',').push(',') + hs.last());
    }
}

pub open spec fn record_fields(r: RecordView) -> Seq<Seq<char>> {
    seq![
        escape_spec(r.repo_root),
        escape_spec(r.pattern),
        escape_spec(r.heavy_dir),
        ring_text(r.ring),
        dec_spec(r.mtime_secs as nat),
    ]
}

/// An index line splits back into its five fields and holds no newline.
#[verifier::spinoff_prover]
proof fn lemma_record_line_split(r: RecordView)
    requires
        ring_ok(r.ring),
    ensures
        split_spec(record_line_spec(r), '\t') == record_fields(r),
        !record_line_spec(r).contains('\n'),
        record_line_spec(r).len() > 0,
{
    let f = record_fields(r);
    assert(record_line_spec(r) == join_spec(f, '\t'));
    lemma_escape_framing_free(r.repo_root);
    lemma_escape_framing_free(r.pattern);
    lemma_escape_framing_free(r.heavy_dir);
    lemma_ring_text(r.ring);
    lemma_fmt_uint(r.mtime_secs as nat, 10);
    lemma_digits_plain(dec_spec(r.mtime_secs as nat), 10);
    assert(pieces_free_of(f, '\t'));
    assert(pieces_free_of(f, '\n'));
    lemma_split_join(f, '\t');
    lemma_join_free(f, '\t', '\n');
    assert(join_spec(f, '\t') == join_spec(f.drop_last(), '\t').push('\t') + f.last());
}

proof fn lemma_record_fields_parse(line: Seq<char>, r: RecordView)
    requires
        split_spec(line, '\t').len() == 5,
        split_spec(line, '\t')[3].len() > 0,
        parse_ring_spec(split_spec(split_spec(line, '\t')[3], ',')) == Some(r.ring),
        1 <= r.ring.len() <= MAX_RING,
        unescape_spec(split_spec(line, '\t')[0]) == Some(r.repo_root),
        unescape_spec(split_spec(line, '\t')[1]) == Some(r.pattern),
        unescape_spec(split_spec(line, '\t')[2]) == Some(r.heavy_dir),
        parse_u64_spec(split_spec(line, '\t')[4]) == Some(r.mtime_secs as nat),
    ensures
        parse_record_spec(line) == Some(r),
{
}

/// An index line parses back to the record it was written from.
pub proof fn lemma_record_round_trip(r: RecordView)
    requires
        ring_ok(r.ring),
    ensures
        parse_record_spec(record_line_spec(r)) == Some(r),
        !record_line_spec(r).contains('\n'),
        record_line_spec(r).len() > 0,
{
    lemma_record_line_split(r);
    let f = record_fields(r);
    assert(unescape_spec(f[0]) == Some(r.repo_root)) by {
        lemma_unescape_escape(r.repo_root);
    }
    assert(unescape_spec(f[1]) == Some(r.pattern)) by {
        lemma_unescape_escape(r.pattern);
    }
    assert(unescape_spec(f[2]) == Some(r.heavy_dir)) by {
        lemma_unescape_escape(r.heavy_dir);
    }
    assert(parse_u64_spec(f[4]) == Some(r.mtime_secs as nat)) by {
        lemma_parse_fmt(r.mtime_secs as nat, 10, u64::MAX as nat);
    }
    assert(parse_ring_spec(split_spec(f[3], ',')) == Some(r.ring)) by {
        lemma_ring_text(r.ring);
        lemma_parse_ring_hexes(r.ring);
    }
    assert(f[3].len() > 0) by {
        lemma_ring_text(r.ring);
    }
    lemma_record_fields_parse(record_line_spec(r), r);
}

proof fn lemma_fold_distinct(recs: Seq<RecordView>, n: int)
    requires
        index_wf(recs),
        0 <= n <= recs.len(),
    ensures
        index_fold(Seq::empty(), recs.map_values(record_line_fn()).take(n)) == recs.take(n),
    decreases n,
{
    let lines = recs.map_values(record_line_fn());
    if n == 0 {
        assert(lines.take(0) =~= Seq::<Seq<char>>::empty());
        assert(recs.take(0) =~= Seq::<RecordView>::empty());
    } else {
        lemma_fold_distinct(recs, n - 1);
        assert(lines.take(n).drop_last() =~= lines.take(n - 1));
        assert(lines.take(n).last() == record_line_spec(recs[n - 1]));
        let r = recs[n - 1];
        lemma_record_round_trip(r);
        let pre = recs.take(n - 1);
        assert forall|j: int| 0 <= j < pre.len() implies !same_key(
            #[trigger] pre[j],
            r.repo_root,
            r.pattern,
            r.heavy_dir,
        ) by {
            assert(pre[j] == recs[j]);
            assert(!same_key(recs[n - 1], recs[j].repo_root, recs[j].pattern, recs[j].heavy_dir));
        }
        lemma_find_none(pre, r.repo_root, r.pattern, r.heavy_dir);
        assert(pre.push(r) =~= recs.take(n));
    }
}

/// Round trip: parsing the text of a well-formed index gives back the
/// index, every record in its place.
pub proof fn lemma_index_round_trip(recs: Seq<RecordView>)
    requires
        index_wf(recs),
    ensures
        index_parse_spec(index_text_spec(recs)) == recs,
{
    let lines = recs.map_values(record_line_fn());
    assert forall|i: int| 0 <= i < lines.len() implies !(#[trigger] lines[i]).contains('\n') && lines[i].len()
        > 0 by {
        lemma_record_round_trip(recs[i]);
    }
    lemma_record_lines_terminated(lines);
    lemma_fold_distinct(recs, recs.len() as int);
    assert(lines.take(recs.len() as int) =~= lines);
    assert(recs.take(recs.len() as int) =~= recs);
}

proof fn lemma_parse_ring_ok(pieces: Seq<Seq<char>>)
    ensures
        match parse_ring_spec(pieces) {
            Some(r) => r.no_duplicates() && ids_sized(r),
            None => true,
        },
    decreases pieces.len(),
{
    if pieces.len() > 0 {
        lemma_parse_ring_ok(pieces.drop_last());
        match parse_ring_spec(pieces.drop_last()) {
            Some(r) => match from_hex_spec(pieces.last()) {
                Some(id) => {
                    if !r.contains(id) {
                        let q = r.push(id);
                        assert forall|i: int, j: int| 0 <= i < j < q.len() implies q[i] != q[j] by {
                            if j == r.len() {
                                assert(r.contains(q[i]));
                            }
                        }
                        assert forall|i: int| 0 <= i < q.len() implies (#[trigger] q[i]).len() == 32 by {
                            if i < r.len() {
                                assert(q[i] == r[i]);
                            }
                        }
                    }
                },
                None => {},
            },
            None => {},
        }
    }
}

/// Every index read from text is well formed: usable rings and one
/// record per key.
pub proof fn lemma_parse_wf(text: Seq<char>)
    ensures
        index_wf(index_parse_spec(text)),
{
    lemma_fold_wf(record_lines(text));
}

proof fn lemma_fold_wf(lines: Seq<Seq<char>>)
    ensures
        index_wf(index_fold(Seq::empty(), lines)),
    decreases lines.len(),
{
    if lines.len() > 0 {
        lemma_fold_wf(lines.drop_last());
        let prev = index_fold(Seq::empty(), lines.drop_last());
        match parse_record_spec(lines.last()) {
            Some(r) => {
                let f = split_spec(lines.last(), '\t');
                lemma_parse_ring_ok(split_spec(f[3], ','));
                lemma_put_keyed(prev, r.repo_root, r.pattern, r.heavy_dir, r);
            },
            None => {},
        }
    }
}

// ---------------------------------------------------------------------------
// Key lookup for selection
// ---------------------------------------------------------------------------

impl SelectionIndex {
    /// The key's ring, newest first; empty when the key has no record.
    /// Selection walks it in order and takes the first candidate that
    /// is a valid published snapshot.
    pub fn ring_for(&self, repo_root: &str, pattern: &str, heavy_dir: &str) -> (r: Vec<ContentId>)
        ensures
            ids_view(r@) == keyed(self@, repo_root@, pattern@, heavy_dir@).ring,
    {
        proof {
            lemma_find_key(self@, repo_root@, pattern@, heavy_dir@);
        }
        match self.position(repo_root, pattern, heavy_dir) {
            Some(k) => {
                assert(self@[k as int] == self.records[k as int]@);
                self.records[k].ring.clone()
            },
            None => {
                let v: Vec<ContentId> = Vec::new();
                assert(ids_view(v@) =~= Seq::<Seq<u8>>::empty());
                v
            },
        }
    }
}

// ---------------------------------------------------------------------------
// The last-use registry
// ---------------------------------------------------------------------------

/// Last-use registry for published snapshots: one `(hash, last-use
/// unix secs)` pair per known snapshot, in file order. A snapshot
/// missing from it falls back to its directory mtime, so a lost
/// registry degrades eviction order, never safety.
#[derive(Debug, Clone, Default, PartialEq, Eq)]
pub struct SnapshotLru {
    /// One `(hash, last-use unix secs)` pair per known snapshot.
    pub entries: Vec<(ContentId, u64)>,
}

pub open spec fn lru_entries_view(es: Seq<(ContentId, u64)>) -> Seq<(Seq<u8>, u64)> {
    es.map_values(|e: (ContentId, u64)| (e.0.0@, e.1))
}

impl View for SnapshotLru {
    type V = Seq<(Seq<u8>, u64)>;

    open spec fn view(&self) -> Seq<(Seq<u8>, u64)> {
        lru_entries_view(self.entries@)
    }
}

/// Index of the first entry for `h`, or -1.
pub open spec fn find_hash(es: Seq<(Seq<u8>, u64)>, h: Seq<u8>) -> int
    decreases es.len(),
{
    if es.len() == 0 {
        -1
    } else {
        let j = find_hash(es.drop_last(), h);
        if j >= 0 {
            j
        } else if es.last().0 == h {
            es.len() - 1
        } else {
            -1
        }
    }
}

pub proof fn lemma_find_hash(es: Seq<(Seq<u8>, u64)>, h: Seq<u8>)
    ensures
        -1 <= find_hash(es, h) < es.len(),
        find_hash(es, h) >= 0 ==> es[find_hash(es, h)].0 == h,
        forall|j: int|
            0 <= j < es.len() && (find_hash(es, h) == -1 || j < find_hash(es, h)) ==> (
            #[trigger] es[j]).0 != h,
    decreases es.len(),
{
    if es.len() > 0 {
        lemma_find_hash(es.drop_last(), h);
        assert forall|j: int| 0 <= j < es.len() - 1 implies es.drop_last()[j] == #[trigger] es[j] by {}
    }
}

/// The registry after recording `secs` as the last use of `h`: the
/// entry is overwritten in place, or appended when `h` is new.
pub open spec fn lru_record_spec(es: Seq<(Seq<u8>, u64)>, h: Seq<u8>, secs: u64) -> Seq<
    (Seq<u8>, u64),
> {
    let k = find_hash(es, h);
    if k >= 0 {
        es.update(k, (h, secs))
    } else {
        es.push((h, secs))
    }
}

/// The recorded last use of `h`.
pub open spec fn lru_last_use_spec(es: Seq<(Seq<u8>, u64)>, h: Seq<u8>) -> Option<u64> {
    let k = find_hash(es, h);
    if k >= 0 {
        Some(es[k].1)
    } else {
        None
    }
}

/// One registry line: a 64-hex hash, a tab, decimal seconds; further
/// tab-separated fields are ignored.
pub open spec fn lru_parse_line_spec(line: Seq<char>) -> Option<(Seq<u8>, u64)> {
    let f = split_spec(line, '\t');
    if f.len() < 2 {
        None
    } else {
        match (from_hex_spec(f[0]), parse_u64_spec(f[1])) {
            (Some(h), Some(t)) => Some((h, t as u64)),
            _ => None,
        }
    }
}

/// Registry lines folded in order, bad lines skipped, newest line
/// winning.
pub open spec fn lru_fold(es: Seq<(Seq<u8>, u64)>, lines: Seq<Seq<char>>) -> Seq<(Seq<u8>, u64)>
    decreases lines.len(),
{
    if lines.len() == 0 {
        es
    } else {
        let prev = lru_fold(es, lines.drop_last());
        match lru_parse_line_spec(lines.last()) {
            Some(e) => lru_record_spec(prev, e.0, e.1),
            None => prev,
        }
    }
}

/// The registry a file's text holds.
pub open spec fn lru_parse_spec(text: Seq<char>) -> Seq<(Seq<u8>, u64)> {
    lru_fold(Seq::empty(), record_lines(text))
}

/// One registry line, without its newline.
pub open spec fn lru_line_spec(e: (Seq<u8>, u64)) -> Seq<char> {
    join_spec(seq![hex_spec(e.0), dec_spec(e.1 as nat)], '\t')
}

pub open spec fn lru_line_fn() -> spec_fn((Seq<u8>, u64)) -> Seq<char> {
    |e: (Seq<u8>, u64)| lru_line_spec(e)
}

/// The registry file's text.
pub open spec fn lru_text_spec(es: Seq<(Seq<u8>, u64)>) -> Seq<char> {
    terminated_spec(es.map_values(lru_line_fn()))
}

/// The registry invariant: 32-byte hashes, each at most once.
pub open spec fn lru_wf(es: Seq<(Seq<u8>, u64)>) -> bool {
    &&& forall|i: int| 0 <= i < es.len() ==> (#[trigger] es[i]).0.len() == 32
    &&& forall|i: int, j: int| #![trigger es[i], es[j]] 0 <= i < j < es.len() ==> es[i].0 != es[j].0
}

impl SnapshotLru {
    /// An empty registry.
    pub fn new() -> (r: SnapshotLru)
        ensures
            r@ == Seq::<(Seq<u8>, u64)>::empty(),
    {
        let r = SnapshotLru { entries: Vec::new() };
        assert(r@ =~= Seq::<(Seq<u8>, u64)>::empty());
        r
    }

    fn position(&self, hash: &ContentId) -> (r: Option<usize>)
        ensures
            match r {
                Some(k) => k as int == find_hash(self@, hash.0@),
                None => find_hash(self@, hash.0@) == -1,
            },
    {
        let ghost v = self@;
        for i in 0..self.entries.len()
            invariant
                v == self@,
                find_hash(v.take(i as int), hash.0@) == -1,
        {
            assert(v.take(i + 1).drop_last() =~= v.take(i as int));
            assert(v[i as int].0 == self.entries[i as int].0.0@);
            if self.entries[i].0 == *hash {
                proof {
                    lemma_find_hash_prefix(v, i as int, hash.0@);
                }
                return Some(i);
            }
        }
        assert(v.take(self.entries.len() as int) =~= v);
        None
    }

    /// Record `secs` as `hash`'s last use, inserting or overwriting.
    /// Last writer wins: callers pass their own clock reading.
    pub fn record(&mut self, hash: &ContentId, secs: u64)
        ensures
            final(self)@ == lru_record_spec(old(self)@, hash.0@, secs),
    {
        let ghost before = self@;
        proof {
            lemma_find_hash(before, hash.0@);
        }
        match self.position(hash) {
            Some(k) => {
                self.entries.set(k, (*hash, secs));
                assert(self@ =~= before.update(k as int, (hash.0@, secs)));
            },
            None => {
                self.entries.push((*hash, secs));
                assert(self@ =~= before.push((hash.0@, secs)));
            },
        }
    }

    /// The recorded last use of `hash`, if any.
    pub fn last_use(&self, hash: &ContentId) -> (r: Option<u64>)
        ensures
            r == lru_last_use_spec(self@, hash.0@),
    {
        proof {
            lemma_find_hash(self@, hash.0@);
        }
        match self.position(hash) {
            Some(k) => {
                assert(self@[k as int].1 == self.entries[k as int].1);
                Some(self.entries[k].1)
            },
            None => None,
        }
    }

    fn parse_line(line: &Vec<char>) -> (r: Option<(ContentId, u64)>)
        ensures
            match r {
                Some(e) => lru_parse_line_spec(line@) == Some((e.0.0@, e.1)),
                None => lru_parse_line_spec(line@) is None,
            },
    {
        let f = split_chars(line, '\t');
        let ghost fs = seqs_of(f@);
        if f.len() < 2 {
            return None;
        }
        assert(fs[0] == f[0]@ && fs[1] == f[1]@);
        let h = match ContentId::from_hex_chars(&f[0]) {
            Some(h) => h,
            None => {
                return None;
            },
        };
        match parse_u64(&f[1]) {
            Some(t) => Some((h, t)),
            None => None,
        }
    }

    /// Parse registry text: valid lines in order, the newest line
    /// winning for a repeated hash; bad lines and the torn tail are
    /// dropped.
    pub fn parse(text: &str) -> (r: SnapshotLru)
        ensures
            r@ == lru_parse_spec(text@),
    {
        let lines = record_lines_of(&chars_of(text));
        let ghost ls = seqs_of(lines@);
        let mut lru = SnapshotLru::new();
        assert(ls.take(0) =~= Seq::<Seq<char>>::empty());
        for i in 0..lines.len()
            invariant
                ls == seqs_of(lines@),
                ls == record_lines(text@),
                lru@ == lru_fold(Seq::empty(), ls.take(i as int)),
        {
            assert(ls.take(i + 1).drop_last() =~= ls.take(i as int));
            assert(ls.take(i + 1).last() == lines[i as int]@);
            match SnapshotLru::parse_line(&lines[i]) {
                Some(e) => lru.record(&e.0, e.1),
                None => {},
            }
        }
        assert(ls.take(lines.len() as int) =~= ls);
        lru
    }

    /// The registry file's text: `<hash>\t<secs>` per entry.
    pub fn serialize(&self) -> (r: String)
        ensures
            r@ == lru_text_spec(self@),
    {
        let ghost lines = self@.map_values(lru_line_fn());
        let mut out: Vec<char> = Vec::new();
        assert(lines.take(0) =~= Seq::<Seq<char>>::empty());
        for i in 0..self.entries.len()
            invariant
                lines == self@.map_values(lru_line_fn()),
                out@ == terminated_spec(lines.take(i as int)),
        {
            let mut fields: Vec<Vec<char>> = Vec::new();
            fields.push(self.entries[i].0.hex_chars());
            fields.push(dec_chars(self.entries[i].1));
            assert(self@[i as int] == (self.entries[i as int].0.0@, self.entries[i as int].1));
            assert(seqs_of(fields@) =~= seq![
                hex_spec(self@[i as int].0),
                dec_spec(self@[i as int].1 as nat),
            ]);
            let line = tab_line(&fields);
            assert(lines.take(i + 1).drop_last() =~= lines.take(i as int));
            assert(lines.take(i + 1).last() == line@);
            push_line(&mut out, &line);
        }
        assert(lines.take(self.entries.len() as int) =~= lines);
        string_of(&out)
    }
}

proof fn lemma_find_hash_prefix(v: Seq<(Seq<u8>, u64)>, i: int, h: Seq<u8>)
    requires
        0 <= i < v.len(),
        find_hash(v.take(i), h) == -1,
        v[i].0 == h,
    ensures
        find_hash(v, h) == i,
    decreases v.len() - i,
{
    if i == v.len() - 1 {
        assert(v.drop_last() =~= v.take(i));
    } else {
        assert(v.drop_last().take(i) =~= v.take(i));
        lemma_find_hash_prefix(v.drop_last(), i, h);
    }
}

proof fn lemma_find_hash_none(es: Seq<(Seq<u8>, u64)>, h: Seq<u8>)
    requires
        forall|j: int| 0 <= j < es.len() ==> (#[trigger] es[j]).0 != h,
    ensures
        find_hash(es, h) == -1,
    decreases es.len(),
{
    if es.len() > 0 {
        assert forall|j: int| 0 <= j < es.len() - 1 implies (#[trigger] es.drop_last()[j]).0 != h by {
            assert(es.drop_last()[j] == es[j]);
        }
        lemma_find_hash_none(es.drop_last(), h);
        assert(es.last() == es[es.len() - 1]);
    }
}

/// Reading after writing: once `secs` is recorded for `h`, the
/// registry reports `secs` for `h` and the same as before for every
/// other hash; the invariant holds on.
pub proof fn lemma_lru_record_law(es: Seq<(Seq<u8>, u64)>, h: Seq<u8>, secs: u64, other: Seq<u8>)
    requires
        lru_wf(es),
        h.len() == 32,
    ensures
        lru_wf(lru_record_spec(es, h, secs)),
        lru_last_use_spec(lru_record_spec(es, h, secs), h) == Some(secs),
        other != h ==> lru_last_use_spec(lru_record_spec(es, h, secs), other) == lru_last_use_spec(
            es,
            other,
        ),
{
    lemma_find_hash(es, h);
    lemma_find_hash(es, other);
    let k = find_hash(es, h);
    let r = lru_record_spec(es, h, secs);
    lemma_find_hash(r, h);
    lemma_find_hash(r, other);
    if k >= 0 {
        assert(r.take(k) =~= es.take(k));
        assert forall|j: int| 0 <= j < k implies (#[trigger] r.take(k)[j]).0 != h by {
            assert(r.take(k)[j] == es[j]);
        }
        lemma_find_hash_none(r.take(k), h);
        lemma_find_hash_prefix(r, k, h);
    } else {
        assert(r.take(es.len() as int) =~= es);
        lemma_find_hash_prefix(r, es.len() as int, h);
    }
    let ko = find_hash(es, other);
    if other != h {
        if ko >= 0 {
            assert forall|j: int| 0 <= j < ko implies (#[trigger] r.take(ko)[j]).0 != other by {
                assert(r.take(ko)[j] == r[j]);
                if k >= 0 && j == k {
                } else {
                    assert(r[j] == es[j]);
                }
            }
            lemma_find_hash_none(r.take(ko), other);
            assert(r[ko].0 == other);
            lemma_find_hash_prefix(r, ko, other);
        } else {
            assert forall|j: int| 0 <= j < r.len() implies (#[trigger] r[j]).0 != other by {
                if j < es.len() && !(k >= 0 && j == k) {
                    assert(r[j] == es[j]);
                }
            }
            lemma_find_hash_none(r, other);
        }
    }
    assert forall|i: int, j: int| #![trigger r[i], r[j]] 0 <= i < j < r.len() implies r[i].0 != r[j].0 by {
        if k >= 0 {
            if i == k {
                assert(es[j].0 != es[k].0);
            } else if j == k {
                assert(es[i].0 != es[k].0);
            }
        } else if j == es.len() {
            assert(es[i].0 != h);
        }
    }
}

/// A registry line parses back to its entry.
pub proof fn lemma_lru_line_round_trip(e: (Seq<u8>, u64))
    requires
        e.0.len() == 32,
    ensures
        lru_parse_line_spec(lru_line_spec(e)) == Some(e),
        !lru_line_spec(e).contains('\n'),
        lru_line_spec(e).len() > 0,
{
    let f = seq![hex_spec(e.0), dec_spec(e.1 as nat)];
    lemma_hex_round_trip(e.0);
    lemma_digits_plain(hex_spec(e.0), 16);
    lemma_fmt_uint(e.1 as nat, 10);
    lemma_digits_plain(dec_spec(e.1 as nat), 10);
    lemma_parse_fmt(e.1 as nat, 10, u64::MAX as nat);
    assert(pieces_free_of(f, '\t'));
    assert(pieces_free_of(f, '\n'));
    lemma_split_join(f, '\t');
    lemma_join_free(f, '\t', '\n');
    assert(f.drop_last() =~= seq![hex_spec(e.0)]);
    assert(join_spec(f.drop_last(), '\t') == hex_spec(e.0));
    assert(f.last() == dec_spec(e.1 as nat));
    assert(lru_line_spec(e) == hex_spec(e.0).push('\t') + dec_spec(e.1 as nat));
}

proof fn lemma_lru_fold_distinct(es: Seq<(Seq<u8>, u64)>, n: int)
    requires
        lru_wf(es),
        0 <= n <= es.len(),
    ensures
        lru_fold(Seq::empty(), es.map_values(lru_line_fn()).take(n)) == es.take(n),
    decreases n,
{
    let lines = es.map_values(lru_line_fn());
    if n == 0 {
        assert(lines.take(0) =~= Seq::<Seq<char>>::empty());
        assert(es.take(0) =~= Seq::<(Seq<u8>, u64)>::empty());
    } else {
        lemma_lru_fold_distinct(es, n - 1);
        assert(lines.take(n).drop_last() =~= lines.take(n - 1));
        assert(lines.take(n).last() == lru_line_spec(es[n - 1]));
        let e = es[n - 1];
        lemma_lru_line_round_trip(e);
        let pre = es.take(n - 1);
        assert forall|j: int| 0 <= j < pre.len() implies (#[trigger] pre[j]).0 != e.0 by {
            assert(pre[j] == es[j]);
        }
        lemma_find_hash_none(pre, e.0);
        assert(pre.push(e) =~= es.take(n));
    }
}

/// Round trip: parsing the text of a registry whose hashes are
/// distinct gives the registry back.
pub proof fn lemma_lru_round_trip(es: Seq<(Seq<u8>, u64)>)
    requires
        lru_wf(es),
    ensures
        lru_parse_spec(lru_text_spec(es)) == es,
{
    let lines = es.map_values(lru_line_fn());
    assert forall|i: int| 0 <= i < lines.len() implies !(#[trigger] lines[i]).contains('\n') && lines[i].len()
        > 0 by {
        lemma_lru_line_round_trip(es[i]);
    }
    lemma_record_lines_terminated(lines);
    lemma_lru_fold_distinct(es, es.len() as int);
    assert(lines.take(es.len() as int) =~= lines);
    assert(es.take(es.len() as int) =~= es);
}

// ---------------------------------------------------------------------------
// The journal
// ---------------------------------------------------------------------------

/// One journal line: a publish or a hit under a key, or a bare
/// last-use touch.
pub enum JournalEntry {
    Publish {
        repo_root: String,
        pattern: String,
        heavy_dir: String,
        hash: ContentId,
        timestamp: u64,
    },
    Hit { repo_root: String, pattern: String, heavy_dir: String, hash: ContentId, timestamp: u64 },
    Touch { hash: ContentId, timestamp: u64 },
}

/// A journal entry as plain values.
pub enum JournalView {
    Publish(Seq<char>, Seq<char>, Seq<char>, Seq<u8>, u64),
    Hit(Seq<char>, Seq<char>, Seq<char>, Seq<u8>, u64),
    Touch(Seq<u8>, u64),
}

impl View for JournalEntry {
    type V = JournalView;

    open spec fn view(&self) -> JournalView {
        match self {
            JournalEntry::Publish { repo_root, pattern, heavy_dir, hash, timestamp } => JournalView::Publish(
                repo_root@,
                pattern@,
                heavy_dir@,
                hash.0@,
                *timestamp,
            ),
            JournalEntry::Hit { repo_root, pattern, heavy_dir, hash, timestamp } => JournalView::Hit(
                repo_root@,
                pattern@,
                heavy_dir@,
                hash.0@,
                *timestamp,
            ),
            JournalEntry::Touch { hash, timestamp } => JournalView::Touch(hash.0@, *timestamp),
        }
    }
}

pub open spec fn kw_publish() -> Seq<char> {
    seq!['p', 'u', 'b', 'l', 'i', 's', 'h']
}

pub open spec fn kw_hit() -> Seq<char> {
    seq!['h', 'i', 't']
}

pub open spec fn kw_touch() -> Seq<char> {
    seq!['t', 'o', 'u', 'c', 'h']
}

pub open spec fn kw_lru() -> Seq<char> {
    seq!['l', 'r', 'u']
}

/// The keyed fields of a `publish` or `hit` line.
pub open spec fn keyed_fields_spec(f: Seq<Seq<char>>) -> Option<
    (Seq<char>, Seq<char>, Seq<char>, Seq<u8>, u64),
> {
    match (
        unescape_spec(f[1]),
        unescape_spec(f[2]),
        unescape_spec(f[3]),
        from_hex_spec(f[4]),
        parse_u64_spec(f[5]),
    ) {
        (Some(a), Some(b), Some(c), Some(h), Some(t)) => Some((a, b, c, h, t as u64)),
        _ => None,
    }
}

/// What one journal line holds: `publish` or `hit` with six fields,
/// `touch` (or its older name `lru`) with three; `None` otherwise.
pub open spec fn parse_journal_spec(line: Seq<char>) -> Option<JournalView> {
    let f = split_spec(line, '\t');
    if f[0] == kw_publish() || f[0] == kw_hit() {
        if f.len() != 6 {
            None
        } else {
            match keyed_fields_spec(f) {
                Some((a, b, c, h, t)) => if f[0] == kw_publish() {
                    Some(JournalView::Publish(a, b, c, h, t))
                } else {
                    Some(JournalView::Hit(a, b, c, h, t))
                },
                None => None,
            }
        }
    } else if f[0] == kw_touch() || f[0] == kw_lru() {
        if f.len() != 3 {
            None
        } else {
            match (from_hex_spec(f[1]), parse_u64_spec(f[2])) {
                (Some(h), Some(t)) => Some(JournalView::Touch(h, t as u64)),
                _ => None,
            }
        }
    } else {
        None
    }
}

/// The index after one journal entry: a publish or a hit as the
/// index records them; a touch leaves the index alone.
pub open spec fn journal_index_step(recs: Seq<RecordView>, e: JournalView) -> Seq<RecordView> {
    match e {
        JournalView::Publish(a, b, c, h, t) => publish_spec(recs, a, b, c, h, t),
        JournalView::Hit(a, b, c, h, _t) => hit_spec(recs, a, b, c, h),
        JournalView::Touch(_h, _t) => recs,
    }
}

/// Journal lines replayed onto an index in order, bad lines skipped.
pub open spec fn journal_index_fold(recs: Seq<RecordView>, lines: Seq<Seq<char>>) -> Seq<
    RecordView,
>
    decreases lines.len(),
{
    if lines.len() == 0 {
        recs
    } else {
        let prev = journal_index_fold(recs, lines.drop_last());
        match parse_journal_spec(lines.last()) {
            Some(e) => journal_index_step(prev, e),
            None => prev,
        }
    }
}

/// The registry after one journal entry: every kind records its
/// timestamp as the hash's last use.
pub open spec fn journal_lru_step(es: Seq<(Seq<u8>, u64)>, e: JournalView) -> Seq<
    (Seq<u8>, u64),
> {
    match e {
        JournalView::Publish(_a, _b, _c, h, t) => lru_record_spec(es, h, t),
        JournalView::Hit(_a, _b, _c, h, t) => lru_record_spec(es, h, t),
        JournalView::Touch(h, t) => lru_record_spec(es, h, t),
    }
}

/// Journal lines replayed onto a registry in order, bad lines skipped.
pub open spec fn journal_lru_fold(es: Seq<(Seq<u8>, u64)>, lines: Seq<Seq<char>>) -> Seq<
    (Seq<u8>, u64),
>
    decreases lines.len(),
{
    if lines.len() == 0 {
        es
    } else {
        let prev = journal_lru_fold(es, lines.drop_last());
        match parse_journal_spec(lines.last()) {
            Some(e) => journal_lru_step(prev, e),
            None => prev,
        }
    }
}

fn kw_chars_publish() -> (r: Vec<char>)
    ensures
        r@ == kw_publish(),
{
    let r = vec!['p', 'u', 'b', 'l', 'i', 's', 'h'];
    assert(r@ =~= kw_publish());
    r
}

fn kw_chars_hit() -> (r: Vec<char>)
    ensures
        r@ == kw_hit(),
{
    let r = vec!['h', 'i', 't'];
    assert(r@ =~= kw_hit());
    r
}

fn kw_chars_touch() -> (r: Vec<char>)
    ensures
        r@ == kw_touch(),
{
    let r = vec!['t', 'o', 'u', 'c', 'h'];
    assert(r@ =~= kw_touch());
    r
}

fn kw_chars_lru() -> (r: Vec<char>)
    ensures
        r@ == kw_lru(),
{
    let r = vec!['l', 'r', 'u'];
    assert(r@ =~= kw_lru());
    r
}

/// Parse one journal line; `None` for anything malformed.
pub fn parse_journal_line(line: &Vec<char>) -> (r: Option<JournalEntry>)
    ensures
        match r {
            Some(e) => parse_journal_spec(line@) == Some(e@),
            None => parse_journal_spec(line@) is None,
        },
{
    let f = split_chars(line, '\t');
    let ghost fs = seqs_of(f@);
    proof {
        crate::text::lemma_split_nonempty(line@, '\t');
    }
    assert(fs[0] == f[0]@);
    let is_pub = chars_eq(&f[0], &kw_chars_publish());
    let is_hit = chars_eq(&f[0], &kw_chars_hit());
    if is_pub || is_hit {
        if f.len() != 6 {
            return None;
        }
        assert(fs[1] == f[1]@ && fs[2] == f[2]@ && fs[3] == f[3]@ && fs[4] == f[4]@ && fs[5]
            == f[5]@);
        let a = match unescape_chars(&f[1]) {
            Ok(a) => a,
            Err(_) => {
                return None;
            },
        };
        let b = match unescape_chars(&f[2]) {
            Ok(b) => b,
            Err(_) => {
                return None;
            },
        };
        let c = match unescape_chars(&f[3]) {
            Ok(c) => c,
            Err(_) => {
                return None;
            },
        };
        let h = match ContentId::from_hex_chars(&f[4]) {
            Some(h) => h,
            None => {
                return None;
            },
        };
        let t = match parse_u64(&f[5]) {
            Some(t) => t,
            None => {
                return None;
            },
        };
        if is_pub {
            Some(
                JournalEntry::Publish {
                    repo_root: string_of(&a),
                    pattern: string_of(&b),
                    heavy_dir: string_of(&c),
                    hash: h,
                    timestamp: t,
                },
            )
        } else {
            Some(
                JournalEntry::Hit {
                    repo_root: string_of(&a),
                    pattern: string_of(&b),
                    heavy_dir: string_of(&c),
                    hash: h,
                    timestamp: t,
                },
            )
        }
    } else if chars_eq(&f[0], &kw_chars_touch()) || chars_eq(&f[0], &kw_chars_lru()) {
        if f.len() != 3 {
            return None;
        }
        assert(fs[1] == f[1]@ && fs[2] == f[2]@);
        let h = match ContentId::from_hex_chars(&f[1]) {
            Some(h) => h,
            None => {
                return None;
            },
        };
        match parse_u64(&f[2]) {
            Some(t) => Some(JournalEntry::Touch { hash: h, timestamp: t }),
            None => None,
        }
    } else {
        None
    }
}

impl SelectionIndex {
    /// Replay journal text onto the index: publishes and hits as
    /// [`Self::record_publish`] and [`Self::record_hit`] apply them,
    /// touches skipped, bad lines and the torn tail dropped.
    pub fn apply_journal(&mut self, text: &str)
        ensures
            final(self)@ == journal_index_fold(old(self)@, record_lines(text@)),
    {
        let lines = record_lines_of(&chars_of(text));
        let ghost ls = seqs_of(lines@);
        let ghost start = self@;
        assert(ls.take(0) =~= Seq::<Seq<char>>::empty());
        for i in 0..lines.len()
            invariant
                ls == seqs_of(lines@),
                ls == record_lines(text@),
                self@ == journal_index_fold(start, ls.take(i as int)),
        {
            assert(ls.take(i + 1).drop_last() =~= ls.take(i as int));
            assert(ls.take(i + 1).last() == lines[i as int]@);
            match parse_journal_line(&lines[i]) {
                Some(JournalEntry::Publish { repo_root, pattern, heavy_dir, hash, timestamp }) => {
                    self.record_publish(
                        repo_root.as_str(),
                        pattern.as_str(),
                        heavy_dir.as_str(),
                        &hash,
                        timestamp,
                    );
                },
                Some(JournalEntry::Hit { repo_root, pattern, heavy_dir, hash, timestamp: _ }) => {
                    self.record_hit(repo_root.as_str(), pattern.as_str(), heavy_dir.as_str(), &hash);
                },
                Some(JournalEntry::Touch { .. }) => {},
                None => {},
            }
        }
        assert(ls.take(lines.len() as int) =~= ls);
    }
}

impl SnapshotLru {
    /// Replay journal text onto the registry: every publish, hit and
    /// touch records its timestamp; bad lines and the torn tail are
    /// dropped.
    pub fn apply_journal(&mut self, text: &str)
        ensures
            final(self)@ == journal_lru_fold(old(self)@, record_lines(text@)),
    {
        let lines = record_lines_of(&chars_of(text));
        let ghost ls = seqs_of(lines@);
        let ghost start = self@;
        assert(ls.take(0) =~= Seq::<Seq<char>>::empty());
        for i in 0..lines.len()
            invariant
                ls == seqs_of(lines@),
                ls == record_lines(text@),
                self@ == journal_lru_fold(start, ls.take(i as int)),
        {
            assert(ls.take(i + 1).drop_last() =~= ls.take(i as int));
            assert(ls.take(i + 1).last() == lines[i as int]@);
            match parse_journal_line(&lines[i]) {
                Some(JournalEntry::Publish { hash, timestamp, .. }) => self.record(&hash, timestamp),
                Some(JournalEntry::Hit { hash, timestamp, .. }) => self.record(&hash, timestamp),
                Some(JournalEntry::Touch { hash, timestamp }) => self.record(&hash, timestamp),
                None => {},
            }
        }
        assert(ls.take(lines.len() as int) =~= ls);
    }
}

/// A `publish` or `hit` journal line, without its newline.
pub open spec fn keyed_line_spec(
    kw: Seq<char>,
    repo_root: Seq<char>,
    pattern: Seq<char>,
    heavy_dir: Seq<char>,
    h: Seq<u8>,
    t: u64,
) -> Seq<char> {
    join_spec(
        seq![
            kw,
            escape_spec(repo_root),
            escape_spec(pattern),
            escape_spec(heavy_dir),
            hex_spec(h),
            dec_spec(t as nat),
        ],
        '\t',
    )
}

/// A `touch` journal line, without its newline.
pub open spec fn touch_line_spec(h: Seq<u8>, t: u64) -> Seq<char> {
    join_spec(seq![kw_touch(), hex_spec(h), dec_spec(t as nat)], '\t')
}

fn keyed_line(
    kw: Vec<char>,
    repo_root: &str,
    pattern: &str,
    heavy_dir: &str,
    hash: &ContentId,
    now_secs: u64,
) -> (r: String)
    ensures
        r@ == keyed_line_spec(kw@, repo_root@, pattern@, heavy_dir@, hash.0@, now_secs).push('\n'),
{
    let ghost k = kw@;
    let mut fields: Vec<Vec<char>> = Vec::new();
    fields.push(kw);
    fields.push(escape_chars(&chars_of(repo_root)));
    fields.push(escape_chars(&chars_of(pattern)));
    fields.push(escape_chars(&chars_of(heavy_dir)));
    fields.push(hash.hex_chars());
    fields.push(dec_chars(now_secs));
    assert(seqs_of(fields@) =~= seq![
        k,
        escape_spec(repo_root@),
        escape_spec(pattern@),
        escape_spec(heavy_dir@),
        hex_spec(hash.0@),
        dec_spec(now_secs as nat),
    ]);
    let mut line = tab_line(&fields);
    line.push('\n');
    string_of(&line)
}

/// The journal line that records a publish of `hash` under the key at
/// `now_secs`.
pub fn publish_line(
    repo_root: &str,
    pattern: &str,
    heavy_dir: &str,
    hash: &ContentId,
    now_secs: u64,
) -> (r: String)
    ensures
        r@ == keyed_line_spec(kw_publish(), repo_root@, pattern@, heavy_dir@, hash.0@, now_secs).push(
            '\n',
        ),
{
    keyed_line(kw_chars_publish(), repo_root, pattern, heavy_dir, hash, now_secs)
}

/// The journal line that records a hit of `hash` under the key at
/// `now_secs`.
pub fn hit_line(
    repo_root: &str,
    pattern: &str,
    heavy_dir: &str,
    hash: &ContentId,
    now_secs: u64,
) -> (r: String)
    ensures
        r@ == keyed_line_spec(kw_hit(), repo_root@, pattern@, heavy_dir@, hash.0@, now_secs).push(
            '\n',
        ),
{
    keyed_line(kw_chars_hit(), repo_root, pattern, heavy_dir, hash, now_secs)
}

/// The journal line that records a bare last-use touch of `hash`.
pub fn touch_line(hash: &ContentId, now_secs: u64) -> (r: String)
    ensures
        r@ == touch_line_spec(hash.0@, now_secs).push('\n'),
{
    let mut fields: Vec<Vec<char>> = Vec::new();
    fields.push(kw_chars_touch());
    fields.push(hash.hex_chars());
    fields.push(dec_chars(now_secs));
    assert(seqs_of(fields@) =~= seq![kw_touch(), hex_spec(hash.0@), dec_spec(now_secs as nat)]);
    let mut line = tab_line(&fields);
    line.push('\n');
    string_of(&line)
}

proof fn lemma_journal_keywords()
    ensures
        !kw_publish().contains('\t'),
        !kw_publish().contains('\n'),
        !kw_hit().contains('\t'),
        !kw_hit().contains('\n'),
        !kw_touch().contains('\t'),
        !kw_touch().contains('\n'),
        kw_publish() != kw_hit(),
        kw_touch() != kw_publish(),
        kw_touch() != kw_hit(),
{
    assert forall|c: char| kw_publish().contains(c) implies 'a' <= c <= 'z' by {
        let k = choose|k: int| 0 <= k < kw_publish().len() && kw_publish()[k] == c;
    }
    assert forall|c: char| kw_hit().contains(c) implies 'a' <= c <= 'z' by {
        let k = choose|k: int| 0 <= k < kw_hit().len() && kw_hit()[k] == c;
    }
    assert forall|c: char| kw_touch().contains(c) implies 'a' <= c <= 'z' by {
        let k = choose|k: int| 0 <= k < kw_touch().len() && kw_touch()[k] == c;
    }
    assert(kw_publish().len() != kw_hit().len());
    assert(kw_touch().len() != kw_publish().len());
    assert(kw_touch().len() != kw_hit().len());
}

/// A publish or hit line splits back into its six fields.
#[verifier::spinoff_prover]
proof fn lemma_keyed_line_fields(
    kw: Seq<char>,
    repo_root: Seq<char>,
    pattern: Seq<char>,
    heavy_dir: Seq<char>,
    h: Seq<u8>,
    t: u64,
)
    requires
        h.len() == 32,
        !kw.contains('\t'),
        !kw.contains('\n'),
    ensures
        split_spec(keyed_line_spec(kw, repo_root, pattern, heavy_dir, h, t), '\t') == seq![
            kw,
            escape_spec(repo_root),
            escape_spec(pattern),
            escape_spec(heavy_dir),
            hex_spec(h),
            dec_spec(t as nat),
        ],
        !keyed_line_spec(kw, repo_root, pattern, heavy_dir, h, t).contains('\n'),
{
    lemma_escape_framing_free(repo_root);
    lemma_escape_framing_free(pattern);
    lemma_escape_framing_free(heavy_dir);
    lemma_hex_round_trip(h);
    lemma_digits_plain(hex_spec(h), 16);
    lemma_fmt_uint(t as nat, 10);
    lemma_digits_plain(dec_spec(t as nat), 10);
    let f = seq![
        kw,
        escape_spec(repo_root),
        escape_spec(pattern),
        escape_spec(heavy_dir),
        hex_spec(h),
        dec_spec(t as nat),
    ];
    assert(pieces_free_of(f, '\t') && pieces_free_of(f, '\n'));
    lemma_split_join(f, '\t');
    lemma_join_free(f, '\t', '\n');
}

/// A publish or hit line's fields read back as what was written.
#[verifier::spinoff_prover]
proof fn lemma_keyed_fields_back(
    repo_root: Seq<char>,
    pattern: Seq<char>,
    heavy_dir: Seq<char>,
    h: Seq<u8>,
    t: u64,
    kw: Seq<char>,
)
    requires
        h.len() == 32,
    ensures
        keyed_fields_spec(
            seq![
                kw,
                escape_spec(repo_root),
                escape_spec(pattern),
                escape_spec(heavy_dir),
                hex_spec(h),
                dec_spec(t as nat),
            ],
        ) == Some((repo_root, pattern, heavy_dir, h, t)),
{
    lemma_unescape_escape(repo_root);
    lemma_unescape_escape(pattern);
    lemma_unescape_escape(heavy_dir);
    lemma_hex_round_trip(h);
    lemma_parse_fmt(t as nat, 10, u64::MAX as nat);
}

/// A journal line reads back as the entry it was written for, so
/// replaying a publish line does what [`SelectionIndex::record_publish`]
/// does, and a hit line what [`SelectionIndex::record_hit`] does.
pub proof fn lemma_journal_line_round_trip(
    repo_root: Seq<char>,
    pattern: Seq<char>,
    heavy_dir: Seq<char>,
    h: Seq<u8>,
    t: u64,
)
    requires
        h.len() == 32,
    ensures
        parse_journal_spec(keyed_line_spec(kw_publish(), repo_root, pattern, heavy_dir, h, t))
            == Some(JournalView::Publish(repo_root, pattern, heavy_dir, h, t)),
        parse_journal_spec(keyed_line_spec(kw_hit(), repo_root, pattern, heavy_dir, h, t)) == Some(
            JournalView::Hit(repo_root, pattern, heavy_dir, h, t),
        ),
        parse_journal_spec(touch_line_spec(h, t)) == Some(JournalView::Touch(h, t)),
        !keyed_line_spec(kw_publish(), repo_root, pattern, heavy_dir, h, t).contains('\n'),
        !keyed_line_spec(kw_hit(), repo_root, pattern, heavy_dir, h, t).contains('\n'),
        !touch_line_spec(h, t).contains('\n'),
{
    lemma_publish_line(repo_root, pattern, heavy_dir, h, t);
    lemma_hit_line(repo_root, pattern, heavy_dir, h, t);
    lemma_touch_line(h, t);
}

#[verifier::spinoff_prover]
proof fn lemma_publish_line(repo_root: Seq<char>, pattern: Seq<char>, heavy_dir: Seq<char>, h: Seq<u8>, t: u64)
    requires
        h.len() == 32,
    ensures
        parse_journal_spec(keyed_line_spec(kw_publish(), repo_root, pattern, heavy_dir, h, t))
            == Some(JournalView::Publish(repo_root, pattern, heavy_dir, h, t)),
        !keyed_line_spec(kw_publish(), repo_root, pattern, heavy_dir, h, t).contains('\n'),
{
    lemma_journal_keywords();
    lemma_keyed_line_fields(kw_publish(), repo_root, pattern, heavy_dir, h, t);
    lemma_keyed_fields_back(repo_root, pattern, heavy_dir, h, t, kw_publish());
}

#[verifier::spinoff_prover]
proof fn lemma_hit_line(repo_root: Seq<char>, pattern: Seq<char>, heavy_dir: Seq<char>, h: Seq<u8>, t: u64)
    requires
        h.len() == 32,
    ensures
        parse_journal_spec(keyed_line_spec(kw_hit(), repo_root, pattern, heavy_dir, h, t)) == Some(
            JournalView::Hit(repo_root, pattern, heavy_dir, h, t),
        ),
        !keyed_line_spec(kw_hit(), repo_root, pattern, heavy_dir, h, t).contains('\n'),
{
    lemma_journal_keywords();
    lemma_keyed_line_fields(kw_hit(), repo_root, pattern, heavy_dir, h, t);
    lemma_keyed_fields_back(repo_root, pattern, heavy_dir, h, t, kw_hit());
}

#[verifier::spinoff_prover]
proof fn lemma_touch_line(h: Seq<u8>, t: u64)
    requires
        h.len() == 32,
    ensures
        parse_journal_spec(touch_line_spec(h, t)) == Some(JournalView::Touch(h, t)),
        !touch_line_spec(h, t).contains('\n'),
{
    lemma_journal_keywords();
    lemma_hex_round_trip(h);
    lemma_digits_plain(hex_spec(h), 16);
    lemma_fmt_uint(t as nat, 10);
    lemma_digits_plain(dec_spec(t as nat), 10);
    lemma_parse_fmt(t as nat, 10, u64::MAX as nat);
    let ft = seq![kw_touch(), hex_spec(h), dec_spec(t as nat)];
    assert(pieces_free_of(ft, '\t') && pieces_free_of(ft, '\n'));
    lemma_split_join(ft, '\t');
    lemma_join_free(ft, '\t', '\n');
    assert(kw_touch() != kw_lru()) by {
        assert(kw_touch().len() != kw_lru().len());
    }
}

/// Replaying journal lines keeps the index invariant.
pub proof fn lemma_journal_index_fold_wf(recs: Seq<RecordView>, lines: Seq<Seq<char>>)
    requires
        index_wf(recs),
    ensures
        index_wf(journal_index_fold(recs, lines)),
    decreases lines.len(),
{
    if lines.len() > 0 {
        lemma_journal_index_fold_wf(recs, lines.drop_last());
        let prev = journal_index_fold(recs, lines.drop_last());
        match parse_journal_spec(lines.last()) {
            Some(JournalView::Publish(a, b, c, h, t)) => {
                lemma_publish_law(prev, a, b, c, h, t);
            },
            Some(JournalView::Hit(a, b, c, h, _t)) => {
                lemma_hit_law(prev, a, b, c, h);
            },
            _ => {},
        }
    }
}

/// Replaying journal lines keeps the registry invariant.
pub proof fn lemma_journal_lru_fold_wf(es: Seq<(Seq<u8>, u64)>, lines: Seq<Seq<char>>)
    requires
        lru_wf(es),
    ensures
        lru_wf(journal_lru_fold(es, lines)),
    decreases lines.len(),
{
    if lines.len() > 0 {
        lemma_journal_lru_fold_wf(es, lines.drop_last());
        let prev = journal_lru_fold(es, lines.drop_last());
        match parse_journal_spec(lines.last()) {
            Some(JournalView::Publish(_a, _b, _c, h, t)) => {
                lemma_lru_record_law(prev, h, t, h);
            },
            Some(JournalView::Hit(_a, _b, _c, h, t)) => {
                lemma_lru_record_law(prev, h, t, h);
            },
            Some(JournalView::Touch(h, t)) => {
                lemma_lru_record_law(prev, h, t, h);
            },
            None => {},
        }
    }
}

/// A publish line appended to a journal whose last line is complete,
/// then replayed onto a valid index and registry: the index is what
/// [`SelectionIndex::record_publish`] makes of the replayed journal
/// before it, so the hash leads the key's ring and the key's mtime is
/// the timestamp; and the registry reports the timestamp as the hash's
/// last use.
pub proof fn lemma_replay_publish(
    journal: Seq<char>,
    recs: Seq<RecordView>,
    es: Seq<(Seq<u8>, u64)>,
    repo_root: Seq<char>,
    pattern: Seq<char>,
    heavy_dir: Seq<char>,
    h: Seq<u8>,
    t: u64,
)
    requires
        journal.len() == 0 || journal.last() == '\n',
        index_wf(recs),
        lru_wf(es),
        h.len() == 32,
    ensures
        ({
            let text = journal + keyed_line_spec(kw_publish(), repo_root, pattern, heavy_dir, h, t).push(
                '\n',
            );
            let before = journal_index_fold(recs, record_lines(journal));
            let after = journal_index_fold(recs, record_lines(text));
            let lru = journal_lru_fold(es, record_lines(text));
            &&& after == publish_spec(before, repo_root, pattern, heavy_dir, h, t)
            &&& index_wf(after)
            &&& keyed(after, repo_root, pattern, heavy_dir).ring[0] == h
            &&& keyed(after, repo_root, pattern, heavy_dir).mtime_secs == t
            &&& lru == lru_record_spec(journal_lru_fold(es, record_lines(journal)), h, t)
            &&& lru_wf(lru)
            &&& lru_last_use_spec(lru, h) == Some(t)
        }),
{
    let l = keyed_line_spec(kw_publish(), repo_root, pattern, heavy_dir, h, t);
    lemma_publish_line(repo_root, pattern, heavy_dir, h, t);
    assert(l.len() > 0) by {
        lemma_journal_keywords();
        lemma_keyed_line_fields(kw_publish(), repo_root, pattern, heavy_dir, h, t);
    }
    crate::text::lemma_record_lines_append(journal, l);
    let lines = record_lines(journal);
    assert(lines.push(l).drop_last() =~= lines);
    lemma_journal_index_fold_wf(recs, lines);
    lemma_journal_lru_fold_wf(es, lines);
    let before = journal_index_fold(recs, lines);
    lemma_publish_law(before, repo_root, pattern, heavy_dir, h, t);
    lemma_lru_record_law(journal_lru_fold(es, lines), h, t, h);
}

/// Every registry read from text keeps its invariant.
pub proof fn lemma_lru_parse_wf(text: Seq<char>)
    ensures
        lru_wf(lru_parse_spec(text)),
{
    lemma_lru_fold_wf(Seq::empty(), record_lines(text));
}

proof fn lemma_lru_fold_wf(es: Seq<(Seq<u8>, u64)>, lines: Seq<Seq<char>>)
    requires
        lru_wf(es),
    ensures
        lru_wf(lru_fold(es, lines)),
    decreases lines.len(),
{
    if lines.len() > 0 {
        lemma_lru_fold_wf(es, lines.drop_last());
        match lru_parse_line_spec(lines.last()) {
            Some(e) => {
                lemma_lru_record_law(lru_fold(es, lines.drop_last()), e.0, e.1, e.0);
            },
            None => {},
        }
    }
}

/// Compacting the journal leaves what loading gives unchanged: folding
/// the journal's complete lines into the canonical index and registry,
/// writing both out, and keeping only the torn tail as the journal
/// loads the same index and registry as the files before compaction.
pub proof fn lemma_compaction_preserves_load(
    index_text: Seq<char>,
    lru_text: Seq<char>,
    journal: Seq<char>,
)
    ensures
        ({
            let k = last_index_spec(journal, '\n');
            let complete = journal.take(k + 1);
            let tail = journal.skip(k + 1);
            let idx = journal_index_fold(index_parse_spec(index_text), record_lines(complete));
            let lru = journal_lru_fold(lru_parse_spec(lru_text), record_lines(complete));
            &&& journal_index_fold(index_parse_spec(index_text_spec(idx)), record_lines(tail))
                == journal_index_fold(index_parse_spec(index_text), record_lines(journal))
            &&& journal_lru_fold(lru_parse_spec(lru_text_spec(lru)), record_lines(tail))
                == journal_lru_fold(lru_parse_spec(lru_text), record_lines(journal))
        }),
{
    let k = last_index_spec(journal, '\n');
    let complete = journal.take(k + 1);
    let tail = journal.skip(k + 1);
    crate::text::lemma_last_index(journal, '\n');
    assert(!tail.contains('\n')) by {
        if tail.contains('\n') {
            let q = choose|q: int| 0 <= q < tail.len() && tail[q] == '\n';
            assert(journal[k + 1 + q] == '\n');
        }
    }
    crate::text::lemma_last_index(tail, '\n');
    assert(record_lines(tail) =~= Seq::<Seq<char>>::empty());
    if k >= 0 {
        crate::text::lemma_last_index(complete, '\n');
        assert(complete[k] == '\n');
        assert(last_index_spec(complete, '\n') == k);
        assert(complete.take(k) =~= journal.take(k));
    } else {
        assert(complete =~= Seq::<char>::empty());
        assert(record_lines(complete) =~= Seq::<Seq<char>>::empty());
    }
    lemma_parse_wf(index_text);
    lemma_lru_parse_wf(lru_text);
    let idx = journal_index_fold(index_parse_spec(index_text), record_lines(complete));
    let lru = journal_lru_fold(lru_parse_spec(lru_text), record_lines(complete));
    lemma_journal_index_fold_wf(index_parse_spec(index_text), record_lines(complete));
    lemma_journal_lru_fold_wf(lru_parse_spec(lru_text), record_lines(complete));
    lemma_index_round_trip(idx);
    lemma_lru_round_trip(lru);
}

// ---------------------------------------------------------------------------
// Where the files live
// ---------------------------------------------------------------------------

/// `<root>/snapshots`.
pub open spec fn snapshots_dir_spec(root: Seq<char>) -> Seq<char> {
    crate::paths::path_join(root, "snapshots"@)
}

/// Path of the selection index: `<root>/snapshots/index.tsv`.
pub fn index_path(root: &str) -> (r: String)
    ensures
        r@ == crate::paths::path_join(snapshots_dir_spec(root@), "index.tsv"@),
{
    let dir = crate::paths::join_path(root, "snapshots");
    crate::paths::join_path(dir.as_str(), "index.tsv")
}

/// Path of the snapshot journal: `<root>/snapshots/journal.tsv`.
pub fn journal_path(root: &str) -> (r: String)
    ensures
        r@ == crate::paths::path_join(snapshots_dir_spec(root@), "journal.tsv"@),
{
    let dir = crate::paths::join_path(root, "snapshots");
    crate::paths::join_path(dir.as_str(), "journal.tsv")
}

/// Path of the last-use registry: `<root>/snapshots/lru.tsv`.
pub fn lru_path(root: &str) -> (r: String)
    ensures
        r@ == crate::paths::path_join(snapshots_dir_spec(root@), "lru.tsv"@),
{
    let dir = crate::paths::join_path(root, "snapshots");
    crate::paths::join_path(dir.as_str(), "lru.tsv")
}

} // verus!
