//! Verified-blob ledger, kept beside the store.
//!
//! One file, `<store root>/verified.tsv`, records for every blob the
//! size and mtime it had when its hash was last checked. Hydration
//! consults this ledger instead of re-reading and re-hashing every
//! blob on every run: a blob is trusted once verified, and trust
//! expires the moment its fingerprint changes.
//!
//! Format: one entry per line, `<64 hex digits>\t<size>\t<secs>\t<nanos>`.
//! Lines that do not parse are dropped rather than trusted.

use vstd::prelude::*;

use crate::kvmap::{
    keys_unique, lemma_map_of_at, lemma_map_of_dom, lemma_map_of_insert, lemma_map_of_remove,
    lemma_map_of_update, map_of,
};
use crate::order::{bytes_lt, lemma_bytes_order, order_ids};
use crate::mirror::{lemma_terminated_join, terminated_spec};
use crate::stamp::{stamp_from_spec, stamp_ok, Timestamp};
use crate::text::{
    chars_of, dec_chars, dec_spec, extend_chars, join_spec, lemma_digits_plain, lemma_fmt_uint,
    lemma_join_free, lemma_parse_fmt, lemma_split_join, lines_of, lines_spec, parse_u32,
    parse_u32_spec, parse_u64, parse_u64_spec, pieces_free_of, seqs_of, split_chars, split_spec,
    string_of, strip_cr,
};
use crate::{from_hex_spec, hex_spec, lemma_hex_round_trip, ContentId};

verus! {

/// What the last verification recorded about one blob.
#[derive(Debug, Clone, Copy, PartialEq, Eq, Structural)]
pub struct Fingerprint {
    /// Blob length in bytes at last verification.
    pub size: u64,
    /// Last-modified time at last verification.
    pub mtime: Timestamp,
}

pub open spec fn ledger_pairs_view(s: Seq<(ContentId, Fingerprint)>) -> Seq<(Seq<u8>, Fingerprint)> {
    s.map_values(|p: (ContentId, Fingerprint)| (p.0.0@, p.1))
}

/// Ids in strictly increasing byte order.
pub open spec fn ids_increasing(s: Seq<(Seq<u8>, Fingerprint)>) -> bool {
    forall|i: int, j: int| #![trigger s[i], s[j]] 0 <= i < j < s.len() ==> bytes_lt(s[i].0, s[j].0)
}

/// The verified-blob ledger: blob id to fingerprint at verification.
pub struct VerifiedLedger {
    root: String,
    entries: Vec<(ContentId, Fingerprint)>,
    dirty: bool,
}

/// What one ledger line holds: exactly four tab-separated fields, a hex
/// id, a size and a time the clock can hold; `None` otherwise.
pub open spec fn ledger_line_spec(line: Seq<char>) -> Option<(Seq<u8>, Fingerprint)> {
    let f = split_spec(line, '\t');
    if f.len() != 4 {
        None
    } else {
        match (from_hex_spec(f[0]), parse_u64_spec(f[1]), parse_u64_spec(f[2]), parse_u32_spec(f[3])) {
            (Some(id), Some(size), Some(secs), Some(nanos)) => match stamp_from_spec(secs, nanos) {
                Some(mtime) => Some((id, Fingerprint { size: size as u64, mtime })),
                None => None,
            },
            _ => None,
        }
    }
}

/// Ledger lines folded into a map in order, bad lines skipped.
pub open spec fn ledger_fold(m: Map<Seq<u8>, Fingerprint>, lines: Seq<Seq<char>>) -> Map<
    Seq<u8>,
    Fingerprint,
>
    decreases lines.len(),
{
    if lines.len() == 0 {
        m
    } else {
        let prev = ledger_fold(m, lines.drop_last());
        match ledger_line_spec(lines.last()) {
            Some((k, f)) => prev.insert(k, f),
            None => prev,
        }
    }
}

/// The entries a ledger file's text holds.
pub open spec fn ledger_parse_spec(text: Seq<char>) -> Map<Seq<u8>, Fingerprint> {
    ledger_fold(Map::empty(), lines_spec(text))
}

/// One ledger line, without its newline.
pub open spec fn ledger_entry_line(id: Seq<u8>, f: Fingerprint) -> Seq<char> {
    join_spec(
        seq![hex_spec(id), dec_spec(f.size as nat), dec_spec(f.mtime.secs as nat), dec_spec(f.mtime.nanos as nat)],
        '\t',
    )
}

/// The ledger file's text: one line per blob, in id order.
pub open spec fn ledger_text_spec(s: Seq<(Seq<u8>, Fingerprint)>) -> Seq<char>
    decreases s.len(),
{
    if s.len() == 0 {
        Seq::empty()
    } else {
        ledger_text_spec(s.drop_last()) + ledger_entry_line(s.last().0, s.last().1).push('\n')
    }
}

/// The ledger `m` vouches for `id` at this size and mtime: it recorded
/// exactly that fingerprint when the blob last hashed to its address.
pub open spec fn vouches(m: Map<Seq<u8>, Fingerprint>, id: Seq<u8>, size: u64, mtime: Timestamp) -> bool {
    m.dom().contains(id) && m[id].size == size && m[id].mtime == mtime
}

/// Trust follows the fingerprint: once a blob is recorded the ledger
/// vouches for it at exactly the recorded size and mtime and at no
/// other, recording one blob leaves every other blob's standing alone,
/// and a forgotten blob is vouched for at nothing.
pub proof fn lemma_trust_follows_fingerprint(
    m: Map<Seq<u8>, Fingerprint>,
    id: Seq<u8>,
    f: Fingerprint,
    other: Seq<u8>,
    size: u64,
    mtime: Timestamp,
)
    ensures
        vouches(m.insert(id, f), id, size, mtime) <==> (size == f.size && mtime == f.mtime),
        other != id ==> (vouches(m.insert(id, f), other, size, mtime) <==> vouches(m, other, size, mtime)),
        !vouches(m.remove(id), id, size, mtime),
        other != id ==> (vouches(m.remove(id), other, size, mtime) <==> vouches(m, other, size, mtime)),
{
}

/// Every recorded moment is one the clock can hold.
pub open spec fn times_ok(m: Map<Seq<u8>, Fingerprint>) -> bool {
    forall|k: Seq<u8>| #[trigger] m.dom().contains(k) ==> stamp_ok(m[k].mtime)
}

/// An entry the ledger file carries faithfully: a 32-byte id and a
/// moment the clock can hold.
pub open spec fn ledger_entry_ok(p: (Seq<u8>, Fingerprint)) -> bool {
    p.0.len() == 32 && stamp_ok(p.1.mtime)
}

/// Every entry is one the ledger file carries faithfully.
pub open spec fn ledger_entries_ok(s: Seq<(Seq<u8>, Fingerprint)>) -> bool {
    forall|i: int| 0 <= i < s.len() ==> ledger_entry_ok(#[trigger] s[i])
}

pub open spec fn ledger_line_fn() -> spec_fn((Seq<u8>, Fingerprint)) -> Seq<char> {
    |p: (Seq<u8>, Fingerprint)| ledger_entry_line(p.0, p.1)
}

pub open spec fn ledger_fields(id: Seq<u8>, f: Fingerprint) -> Seq<Seq<char>> {
    seq![hex_spec(id), dec_spec(f.size as nat), dec_spec(f.mtime.secs as nat), dec_spec(f.mtime.nanos as nat)]
}

proof fn lemma_dec_field(n: nat, max: nat)
    requires
        n <= max,
    ensures
        crate::text::parse_uint_spec(dec_spec(n), 10, max) == Some(n),
        !dec_spec(n).contains('\t'),
        !dec_spec(n).contains('\n'),
        !dec_spec(n).contains('\r'),
        dec_spec(n).len() > 0,
{
    lemma_fmt_uint(n, 10);
    lemma_digits_plain(dec_spec(n), 10);
    lemma_parse_fmt(n, 10, max);
}

#[verifier::spinoff_prover]
proof fn lemma_ledger_line_split(id: Seq<u8>, f: Fingerprint)
    requires
        ledger_entry_ok((id, f)),
    ensures
        split_spec(ledger_entry_line(id, f), '\t') == ledger_fields(id, f),
        !ledger_entry_line(id, f).contains('\n'),
        strip_cr(ledger_entry_line(id, f)) == ledger_entry_line(id, f),
{
    let fs = ledger_fields(id, f);
    assert(ledger_entry_line(id, f) == join_spec(fs, '\t'));
    lemma_dec_field(f.size as nat, u64::MAX as nat);
    lemma_dec_field(f.mtime.secs as nat, u64::MAX as nat);
    lemma_dec_field(f.mtime.nanos as nat, u32::MAX as nat);
    lemma_hex_round_trip(id);
    lemma_digits_plain(hex_spec(id), 16);
    assert(pieces_free_of(fs, '\t'));
    assert(pieces_free_of(fs, '\n'));
    lemma_split_join(fs, '\t');
    lemma_join_free(fs, '\t', '\n');
    let line = join_spec(fs, '\t');
    let last = dec_spec(f.mtime.nanos as nat);
    assert(line == join_spec(fs.drop_last(), '\t').push('\t') + fs.last());
    assert(line.last() == last.last());
    assert(last.contains(last.last())) by {
        assert(last[last.len() - 1] == last.last());
    }
}

proof fn lemma_ledger_fields_parse(line: Seq<char>, id: Seq<u8>, f: Fingerprint)
    requires
        split_spec(line, '\t').len() == 4,
        from_hex_spec(split_spec(line, '\t')[0]) == Some(id),
        parse_u64_spec(split_spec(line, '\t')[1]) == Some(f.size as nat),
        parse_u64_spec(split_spec(line, '\t')[2]) == Some(f.mtime.secs as nat),
        parse_u32_spec(split_spec(line, '\t')[3]) == Some(f.mtime.nanos as nat),
        stamp_from_spec(f.mtime.secs as nat, f.mtime.nanos as nat) == Some(f.mtime),
    ensures
        ledger_line_spec(line) == Some((id, f)),
{
}

proof fn lemma_stamp_parts(t: Timestamp)
    requires
        stamp_ok(t),
    ensures
        stamp_from_spec(t.secs as nat, t.nanos as nat) == Some(t),
{
    assert((t.nanos as nat) / 1_000_000_000nat == 0);
    assert((t.nanos as nat) % 1_000_000_000nat == t.nanos as nat);
}

/// One ledger line parses back to the entry it was written from.
proof fn lemma_ledger_line(id: Seq<u8>, f: Fingerprint)
    requires
        ledger_entry_ok((id, f)),
    ensures
        ledger_line_spec(ledger_entry_line(id, f)) == Some((id, f)),
        !ledger_entry_line(id, f).contains('\n'),
        strip_cr(ledger_entry_line(id, f)) == ledger_entry_line(id, f),
{
    lemma_ledger_line_split(id, f);
    let fs = ledger_fields(id, f);
    assert(from_hex_spec(fs[0]) == Some(id)) by {
        lemma_hex_round_trip(id);
    }
    assert(parse_u64_spec(fs[1]) == Some(f.size as nat)) by {
        lemma_dec_field(f.size as nat, u64::MAX as nat);
    }
    assert(parse_u64_spec(fs[2]) == Some(f.mtime.secs as nat)) by {
        lemma_dec_field(f.mtime.secs as nat, u64::MAX as nat);
    }
    assert(parse_u32_spec(fs[3]) == Some(f.mtime.nanos as nat)) by {
        lemma_dec_field(f.mtime.nanos as nat, u32::MAX as nat);
    }
    lemma_stamp_parts(f.mtime);
    lemma_ledger_fields_parse(ledger_entry_line(id, f), id, f);
}

proof fn lemma_ledger_text_terminated(s: Seq<(Seq<u8>, Fingerprint)>)
    ensures
        ledger_text_spec(s) == terminated_spec(s.map_values(ledger_line_fn())),
    decreases s.len(),
{
    if s.len() > 0 {
        lemma_ledger_text_terminated(s.drop_last());
        assert(s.drop_last().map_values(ledger_line_fn()) =~= s.map_values(ledger_line_fn()).drop_last());
    }
}

proof fn lemma_ledger_fold(s: Seq<(Seq<u8>, Fingerprint)>, n: int)
    requires
        ledger_entries_ok(s),
        0 <= n <= s.len(),
    ensures
        ledger_fold(Map::empty(), s.map_values(ledger_line_fn()).take(n)) == map_of(s.take(n)),
    decreases n,
{
    let lines = s.map_values(ledger_line_fn());
    if n == 0 {
        assert(lines.take(0) =~= Seq::<Seq<char>>::empty());
        assert(s.take(0) =~= Seq::<(Seq<u8>, Fingerprint)>::empty());
    } else {
        lemma_ledger_fold(s, n - 1);
        assert(lines.take(n).drop_last() =~= lines.take(n - 1));
        assert(s.take(n).drop_last() =~= s.take(n - 1));
        assert(ledger_entry_ok(s[n - 1]));
        lemma_ledger_line(s[n - 1].0, s[n - 1].1);
        assert(lines.take(n).last() == ledger_entry_line(s[n - 1].0, s[n - 1].1));
    }
}

/// Round trip: the text a ledger serializes to reads back as the same
/// fingerprints, for every ledger whose moments the clock can hold.
pub proof fn lemma_ledger_round_trip(s: Seq<(Seq<u8>, Fingerprint)>)
    requires
        ledger_entries_ok(s),
    ensures
        ledger_parse_spec(ledger_text_spec(s)) == map_of(s),
{
    let lines = s.map_values(ledger_line_fn());
    lemma_ledger_text_terminated(s);
    assert forall|i: int| 0 <= i < lines.len() implies !(#[trigger] lines[i]).contains('\n') && strip_cr(
        lines[i],
    ) == lines[i] by {
        assert(ledger_entry_ok(s[i]));
        lemma_ledger_line(s[i].0, s[i].1);
    }
    crate::validation::lemma_lines_of_terminated(lines);
    lemma_ledger_fold(s, s.len() as int);
    assert(lines.take(s.len() as int) =~= lines);
    assert(s.take(s.len() as int) =~= s);
}

impl VerifiedLedger {
    /// The entries, in id order.
    pub closed spec fn pairs(&self) -> Seq<(Seq<u8>, Fingerprint)> {
        ledger_pairs_view(self.entries@)
    }

    /// The entries as a map from blob id.
    pub open spec fn map(&self) -> Map<Seq<u8>, Fingerprint> {
        map_of(self.pairs())
    }

    /// The store root the ledger file lives in.
    pub closed spec fn root_spec(&self) -> Seq<char> {
        self.root@
    }

    /// Whether anything changed since the ledger was opened or saved.
    pub closed spec fn dirty_spec(&self) -> bool {
        self.dirty
    }

    #[verifier::type_invariant]
    closed spec fn sorted(&self) -> bool {
        ids_increasing(ledger_pairs_view(self.entries@))
    }

    proof fn lemma_unique(&self)
        requires
            ids_increasing(self.pairs()),
        ensures
            keys_unique(self.pairs()),
    {
        let s = self.pairs();
        assert forall|i: int, j: int| #![trigger s[i], s[j]] 0 <= i < j < s.len() implies s[i].0 != s[j].0 by {
            lemma_bytes_order(s[i].0, s[j].0, s[i].0);
        }
    }

    /// The ledger of the store at `root`, from the text of its ledger
    /// file when that could be read (`None` gives an empty ledger).
    pub fn open(root: &str, text: Option<&str>) -> (l: VerifiedLedger)
        ensures
            l.root_spec() == root@,
            !l.dirty_spec(),
            l.map() == match text {
                Some(t) => ledger_parse_spec(t@),
                None => Map::empty(),
            },
    {
        let mut l = VerifiedLedger { root: root.to_owned(), entries: Vec::new(), dirty: false };
        assert(l.pairs() =~= Seq::<(Seq<u8>, Fingerprint)>::empty());
        assert(l.map() =~= Map::<Seq<u8>, Fingerprint>::empty());
        match text {
            Some(t) => {
                let lines = lines_of(&chars_of(t));
                let ghost ls = seqs_of(lines@);
                assert(ls.take(0) =~= Seq::<Seq<char>>::empty());
                for i in 0..lines.len()
                    invariant
                        ls == seqs_of(lines@),
                        ls == lines_spec(t@),
                        l.root_spec() == root@,
                        !l.dirty_spec(),
                        l.map() == ledger_fold(Map::empty(), ls.take(i as int)),
                {
                    assert(ls.take(i + 1).drop_last() =~= ls.take(i as int));
                    assert(ls.take(i + 1).last() == lines[i as int]@);
                    match parse_ledger_line(&lines[i]) {
                        Some((k, f)) => {
                            l.put(k, f);
                        },
                        None => {},
                    }
                }
                assert(ls.take(lines.len() as int) =~= ls);
            },
            None => {},
        }
        l
    }

    fn search(&self, id: &ContentId) -> (r: Result<usize, usize>)
        ensures
            match r {
                Ok(p) => p < self.pairs().len() && self.pairs()[p as int].0 == id.0@,
                Err(p) => p <= self.pairs().len() && (forall|i: int|
                    0 <= i < p ==> bytes_lt(#[trigger] self.pairs()[i].0, id.0@)) && (forall|i: int|
                    p <= i < self.pairs().len() ==> bytes_lt(id.0@, #[trigger] self.pairs()[i].0)),
            },
    {
        proof {
            use_type_invariant(self);
        }
        let ghost s = self.pairs();
        let mut lo: usize = 0;
        let mut hi: usize = self.entries.len();
        while lo < hi
            invariant
                s == self.pairs(),
                ids_increasing(s),
                s.len() == self.entries.len(),
                0 <= lo <= hi <= s.len(),
                forall|i: int| 0 <= i < lo ==> bytes_lt(#[trigger] s[i].0, id.0@),
                forall|i: int| hi <= i < s.len() ==> bytes_lt(id.0@, #[trigger] s[i].0),
            decreases hi - lo,
        {
            let mid = lo + (hi - lo) / 2;
            assert(s[mid as int].0 == self.entries@[mid as int].0.0@);
            let o = order_ids(&self.entries[mid].0, id);
            proof {
                lemma_bytes_order(s[mid as int].0, id.0@, s[mid as int].0);
            }
            if o == 0 {
                return Ok(mid);
            } else if o < 0 {
                assert forall|i: int| 0 <= i < mid + 1 implies bytes_lt(#[trigger] s[i].0, id.0@) by {
                    if i < mid {
                        lemma_bytes_order(s[i].0, s[mid as int].0, id.0@);
                    }
                }
                lo = mid + 1;
            } else {
                assert forall|i: int| mid <= i < s.len() implies bytes_lt(id.0@, #[trigger] s[i].0) by {
                    if i > mid {
                        lemma_bytes_order(id.0@, s[mid as int].0, s[i].0);
                    }
                }
                hi = mid;
            }
        }
        Err(lo)
    }

    fn put(&mut self, id: ContentId, f: Fingerprint)
        ensures
            final(self).map() == old(self).map().insert(id.0@, f),
            final(self).root_spec() == old(self).root_spec(),
            final(self).dirty_spec() == old(self).dirty_spec(),
    {
        proof {
            use_type_invariant(&*self);
            self.lemma_unique();
        }
        let ghost s = self.pairs();
        match self.search(&id) {
            Ok(p) => {
                let ghost key = s[p as int].0;
                let mut v: Vec<(ContentId, Fingerprint)> = Vec::new();
                std::mem::swap(&mut v, &mut self.entries);
                v.set(p, (id, f));
                proof {
                    assert(ledger_pairs_view(v@) =~= s.update(p as int, (key, f)));
                    lemma_map_of_update(s, p as int, f);
                    let t = ledger_pairs_view(v@);
                    assert forall|i: int, j: int| #![trigger t[i], t[j]] 0 <= i < j < t.len() implies bytes_lt(t[i].0, t[j].0) by {
                        assert(s[i].0 == t[i].0 && s[j].0 == t[j].0);
                    }
                }
                self.entries = v;
            },
            Err(p) => {
                proof {
                    assert forall|i: int| 0 <= i < s.len() implies (#[trigger] s[i]).0 != id.0@ by {
                        if i < p {
                            lemma_bytes_order(s[i].0, id.0@, s[i].0);
                        } else {
                            lemma_bytes_order(id.0@, s[i].0, id.0@);
                        }
                    }
                    lemma_map_of_insert(s, p as int, id.0@, f);
                }
                let mut v: Vec<(ContentId, Fingerprint)> = Vec::new();
                std::mem::swap(&mut v, &mut self.entries);
                v.insert(p, (id, f));
                proof {
                    assert(ledger_pairs_view(v@) =~= s.insert(p as int, (id.0@, f)));
                    let t = ledger_pairs_view(v@);
                    assert forall|i: int, j: int| #![trigger t[i], t[j]] 0 <= i < j < t.len() implies bytes_lt(t[i].0, t[j].0) by {
                        if i < p && j > p {
                            lemma_bytes_order(t[i].0, id.0@, t[j].0);
                        }
                    }
                }
                self.entries = v;
            },
        }
    }

    /// True when the recorded fingerprint for `id` matches both the
    /// size and the mtime the caller just saw.
    pub fn matches(&self, id: &ContentId, size: u64, mtime: Timestamp) -> (b: bool)
        ensures
            b == vouches(self.map(), id.0@, size, mtime),
    {
        proof {
            use_type_invariant(self);
            self.lemma_unique();
            lemma_map_of_dom(self.pairs(), id.0@);
        }
        match self.search(id) {
            Ok(p) => {
                proof {
                    lemma_map_of_at(self.pairs(), p as int);
                }
                assert(self.pairs()[p as int].1 == self.entries@[p as int].1);
                let fp = self.entries[p].1;
                fp.size == size && fp.mtime == mtime
            },
            Err(p) => {
                proof {
                    if self.map().dom().contains(id.0@) {
                        let i = choose|i: int| 0 <= i < self.pairs().len() && #[trigger] self.pairs()[i].0 == id.0@;
                        lemma_bytes_order(id.0@, id.0@, id.0@);
                    }
                }
                false
            },
        }
    }

    /// Record what this verification learned about one blob.
    pub fn record(&mut self, id: ContentId, fingerprint: Fingerprint)
        ensures
            final(self).map() == old(self).map().insert(id.0@, fingerprint),
            final(self).dirty_spec(),
            final(self).root_spec() == old(self).root_spec(),
    {
        self.put(id, fingerprint);
        proof {
            use_type_invariant(&*self);
        }
        self.dirty = true;
    }

    /// Drop the entry of a deleted blob; nothing changes, and nothing
    /// is left to save, when none was recorded.
    pub fn forget(&mut self, id: &ContentId)
        ensures
            final(self).map() == old(self).map().remove(id.0@),
            final(self).dirty_spec() == (old(self).dirty_spec() || old(self).map().dom().contains(
                id.0@,
            )),
            final(self).root_spec() == old(self).root_spec(),
    {
        proof {
            use_type_invariant(&*self);
            self.lemma_unique();
            lemma_map_of_dom(self.pairs(), id.0@);
        }
        let ghost s = self.pairs();
        match self.search(id) {
            Ok(p) => {
                let mut v: Vec<(ContentId, Fingerprint)> = Vec::new();
                std::mem::swap(&mut v, &mut self.entries);
                v.remove(p);
                proof {
                    assert(ledger_pairs_view(v@) =~= s.remove(p as int));
                    lemma_map_of_remove(s, p as int);
                    let t = ledger_pairs_view(v@);
                    assert forall|i: int, j: int| #![trigger t[i], t[j]] 0 <= i < j < t.len() implies bytes_lt(t[i].0, t[j].0) by {
                        if j < p {
                            assert(t[i] == s[i] && t[j] == s[j]);
                        } else if i < p {
                            assert(t[i] == s[i] && t[j] == s[j + 1]);
                        } else {
                            assert(t[i] == s[i + 1] && t[j] == s[j + 1]);
                        }
                    }
                }
                self.entries = v;
                self.dirty = true;
            },
            Err(p) => {
                proof {
                    if s.len() > 0 {
                        assert forall|i: int| 0 <= i < s.len() implies #[trigger] s[i].0 != id.0@ by {
                            if i < p {
                                lemma_bytes_order(s[i].0, id.0@, s[i].0);
                            } else {
                                lemma_bytes_order(id.0@, s[i].0, id.0@);
                            }
                        }
                    }
                    assert(map_of(s).remove(id.0@) =~= map_of(s));
                }
            },
        }
    }

    /// Number of recorded blobs.
    pub fn len(&self) -> (n: usize)
        ensures
            n == self.map().len(),
    {
        proof {
            use_type_invariant(self);
            self.lemma_unique();
            lemma_ledger_len(self.pairs());
        }
        self.entries.len()
    }

    /// True if nothing is recorded.
    pub fn is_empty(&self) -> (b: bool)
        ensures
            b == (self.map().len() == 0),
    {
        self.len() == 0
    }

    /// Whether a save has anything to write.
    pub fn is_dirty(&self) -> (b: bool)
        ensures
            b == self.dirty_spec(),
    {
        self.dirty
    }

    /// Path of the ledger file: `<root>/verified.tsv`.
    pub fn path(&self) -> (r: String)
        ensures
            r@ == crate::paths::path_join(self.root_spec(), "verified.tsv"@),
    {
        crate::paths::join_path(self.root.as_str(), "verified.tsv")
    }

    /// The ledger file's text: every blob in id order.
    pub fn serialize(&self) -> (r: String)
        ensures
            r@ == ledger_text_spec(self.pairs()),
            times_ok(self.map()) ==> ledger_parse_spec(r@) == self.map(),
    {
        proof {
            if times_ok(self.map()) {
                use_type_invariant(self);
                self.lemma_unique();
                let ps = self.pairs();
                assert forall|i: int| 0 <= i < ps.len() implies ledger_entry_ok(#[trigger] ps[i]) by {
                    lemma_map_of_at(ps, i);
                    assert(self.map().dom().contains(ps[i].0));
                    assert(ps[i] == (self.entries@[i].0.0@, self.entries@[i].1));
                }
                lemma_ledger_round_trip(ps);
            }
        }
        let ghost s = self.pairs();
        let mut out: Vec<char> = Vec::new();
        assert(s.take(0) =~= Seq::<(Seq<u8>, Fingerprint)>::empty());
        for i in 0..self.entries.len()
            invariant
                s == self.pairs(),
                s.len() == self.entries.len(),
                out@ == ledger_text_spec(s.take(i as int)),
        {
            let (id, fp) = self.entries[i];
            assert(s[i as int] == (id.0@, fp));
            let mut fields: Vec<Vec<char>> = Vec::new();
            fields.push(id.hex_chars());
            fields.push(dec_chars(fp.size));
            fields.push(dec_chars(fp.mtime.secs));
            fields.push(dec_chars(fp.mtime.nanos as u64));
            assert(seqs_of(fields@) =~= seq![
                hex_spec(id.0@),
                dec_spec(fp.size as nat),
                dec_spec(fp.mtime.secs as nat),
                dec_spec(fp.mtime.nanos as nat),
            ]);
            let line = crate::mirror::tab_line(&fields);
            extend_chars(&mut out, &line);
            out.push('\n');
            assert(s.take(i + 1).drop_last() =~= s.take(i as int));
            assert(out@ =~= ledger_text_spec(s.take(i + 1)));
        }
        assert(s.take(self.entries.len() as int) =~= s);
        string_of(&out)
    }

    /// Note that the ledger's text was written out.
    pub fn mark_saved(&mut self)
        ensures
            !final(self).dirty_spec(),
            final(self).map() == old(self).map(),
            final(self).pairs() == old(self).pairs(),
            final(self).root_spec() == old(self).root_spec(),
    {
        proof {
            use_type_invariant(&*self);
        }
        self.dirty = false;
    }
}

proof fn lemma_ledger_len(s: Seq<(Seq<u8>, Fingerprint)>)
    requires
        keys_unique(s),
    ensures
        map_of(s).len() == s.len(),
        map_of(s).dom().finite(),
    decreases s.len(),
{
    if s.len() > 0 {
        let init = s.drop_last();
        assert(keys_unique(init)) by {
            assert forall|a: int, b: int| #![trigger init[a], init[b]] 0 <= a < b < init.len() implies init[a].0 != init[b].0 by {
                assert(init[a] == s[a] && init[b] == s[b]);
            }
        }
        lemma_ledger_len(init);
        lemma_map_of_dom(init, s.last().0);
        if map_of(init).dom().contains(s.last().0) {
            let i = choose|i: int| 0 <= i < init.len() && #[trigger] init[i].0 == s.last().0;
            assert(s[i].0 != s[s.len() - 1].0);
        }
    } else {
        assert(map_of(s).dom() =~= Set::<Seq<u8>>::empty());
    }
}

fn parse_ledger_line(line: &Vec<char>) -> (r: Option<(ContentId, Fingerprint)>)
    ensures
        match r {
            Some(p) => ledger_line_spec(line@) == Some((p.0.0@, p.1)),
            None => ledger_line_spec(line@) is None,
        },
{
    let f = split_chars(line, '\t');
    let ghost fs = seqs_of(f@);
    if f.len() != 4 {
        return None;
    }
    assert(fs[0] == f[0]@ && fs[1] == f[1]@ && fs[2] == f[2]@ && fs[3] == f[3]@);
    let id = match ContentId::from_hex_chars(&f[0]) {
        Some(id) => id,
        None => {
            return None;
        },
    };
    let (size, secs, nanos) = match (parse_u64(&f[1]), parse_u64(&f[2]), parse_u32(&f[3])) {
        (Some(a), Some(b), Some(c)) => (a, b, c),
        _ => {
            return None;
        },
    };
    match Timestamp::from_parts(secs, nanos) {
        Some(mtime) => Some((id, Fingerprint { size, mtime })),
        None => None,
    }
}

} // verus!
