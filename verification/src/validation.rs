//! Ingest validation cache, kept beside the store.
//!
//! One file, `<store root>/ingest-cache.tsv`, records for every path
//! the last ingest saw its size, mtime, inode, ctime and content id.
//! The next ingest skips reading and hashing a file whose size, mtime,
//! inode and ctime are unchanged, reusing the recorded id. An mtime
//! within two seconds of now is always a miss, so rapid rewrites are
//! rehashed.
//!
//! Format: one entry per line,
//! `<path>\t<size>\t<msecs>\t<mnanos>\t<inode>\t<csecs>\t<cnanos>\t<64 hex digits>`;
//! older five-field lines without inode and ctime are still read.
//! Lines that do not parse are dropped, so corruption shrinks the cache
//! and never misdirects it.

use vstd::prelude::*;

use crate::kvmap::{keys_unique, lemma_map_of_at, lemma_map_of_dom, lemma_map_of_insert, lemma_map_of_update, map_of};
use crate::order::{chars_lt, lemma_chars_order, order_chars};
use crate::mirror::{lemma_terminated_join, terminated_spec};
use crate::stamp::{stamp_from_spec, stamp_ok, within_two_secs, within_two_secs_exec, Timestamp};
use crate::text::{
    chars_of, dec_chars, dec_spec, extend_chars, join_spec, lemma_digits_plain, lemma_fmt_uint,
    lemma_join_free, lemma_parse_fmt, lemma_split_join, lines_of, lines_spec, parse_u32,
    parse_u32_spec, parse_u64, parse_u64_spec, pieces_free_of, seqs_of, split_chars, split_spec,
    string_of, strip_cr,
};
use crate::{from_hex_spec, hex_spec, lemma_hex_round_trip, ContentId};

verus! {

/// What the last ingest recorded about one file.
#[derive(Debug, Clone, Copy, PartialEq, Eq)]
pub struct Entry {
    /// File length in bytes at last ingest.
    pub size: u64,
    /// Last-modified time at last ingest.
    pub mtime: Timestamp,
    /// Inode number at last ingest; 0 when unknown.
    pub inode: u64,
    /// Inode change time at last ingest; the epoch when unknown.
    pub ctime: Timestamp,
    /// Content id the bytes hashed to at last ingest.
    pub id: ContentId,
}

/// An entry as plain values.
pub struct EntryView {
    pub size: u64,
    pub mtime: Timestamp,
    pub inode: u64,
    pub ctime: Timestamp,
    pub id: Seq<u8>,
}

impl View for Entry {
    type V = EntryView;

    open spec fn view(&self) -> EntryView {
        EntryView {
            size: self.size,
            mtime: self.mtime,
            inode: self.inode,
            ctime: self.ctime,
            id: self.id.0@,
        }
    }
}

pub open spec fn pair_view(p: (String, Entry)) -> (Seq<char>, EntryView) {
    (p.0@, p.1@)
}

pub open spec fn pairs_view(s: Seq<(String, Entry)>) -> Seq<(Seq<char>, EntryView)> {
    s.map_values(|p: (String, Entry)| pair_view(p))
}

/// Keys in strictly increasing path order.
pub open spec fn paths_increasing(s: Seq<(Seq<char>, EntryView)>) -> bool {
    forall|i: int, j: int| #![trigger s[i], s[j]] 0 <= i < j < s.len() ==> chars_lt(s[i].0, s[j].0)
}

/// Ingest-side stat cache: path to (size, mtime, inode, ctime, id).
pub struct ValidationCache {
    root: String,
    entries: Vec<(String, Entry)>,
    dirty: bool,
}

/// The epoch, the ctime of an entry that recorded none.
pub open spec fn epoch_spec() -> Timestamp {
    Timestamp { secs: 0, nanos: 0 }
}

/// What a lookup answers: the recorded id, but only when size and
/// mtime match, a recorded inode matches, a recorded ctime matches, and
/// the mtime is not within two seconds of `now`.
pub open spec fn lookup_spec(
    m: Map<Seq<char>, EntryView>,
    rel: Seq<char>,
    size: u64,
    mtime: Timestamp,
    inode: u64,
    ctime: Timestamp,
    now: Timestamp,
) -> Option<Seq<u8>> {
    if !m.dom().contains(rel) {
        None
    } else {
        let e = m[rel];
        if e.size != size || e.mtime != mtime {
            None
        } else if e.inode != 0 && e.inode != inode {
            None
        } else if e.ctime != epoch_spec() && e.ctime != ctime {
            None
        } else if within_two_secs(now, mtime) {
            None
        } else {
            Some(e.id)
        }
    }
}

/// What one cache line holds: the current eight-field form or the
/// older five-field one; `None` for anything else.
pub open spec fn parse_line_spec(line: Seq<char>) -> Option<(Seq<char>, EntryView)> {
    let f = split_spec(line, '\t');
    if f.len() == 8 {
        match (
            parse_u64_spec(f[1]),
            parse_u64_spec(f[2]),
            parse_u32_spec(f[3]),
            parse_u64_spec(f[4]),
            parse_u64_spec(f[5]),
            parse_u32_spec(f[6]),
        ) {
            (Some(size), Some(ms), Some(mn), Some(inode), Some(cs), Some(cn)) => match (
                from_hex_spec(f[7]),
                stamp_from_spec(ms, mn),
                stamp_from_spec(cs, cn),
            ) {
                (Some(id), Some(mtime), Some(ctime)) => Some(
                    (
                        f[0],
                        EntryView { size: size as u64, mtime, inode: inode as u64, ctime, id },
                    ),
                ),
                _ => None,
            },
            _ => None,
        }
    } else if f.len() == 5 {
        match (parse_u64_spec(f[1]), parse_u64_spec(f[2]), parse_u32_spec(f[3])) {
            (Some(size), Some(ms), Some(mn)) => match (from_hex_spec(f[4]), stamp_from_spec(ms, mn)) {
                (Some(id), Some(mtime)) => Some(
                    (
                        f[0],
                        EntryView { size: size as u64, mtime, inode: 0, ctime: epoch_spec(), id },
                    ),
                ),
                _ => None,
            },
            _ => None,
        }
    } else {
        None
    }
}

/// Cache lines folded into a map in order; a later line for a path
/// replaces an earlier one, bad lines are skipped.
pub open spec fn cache_fold(m: Map<Seq<char>, EntryView>, lines: Seq<Seq<char>>) -> Map<
    Seq<char>,
    EntryView,
>
    decreases lines.len(),
{
    if lines.len() == 0 {
        m
    } else {
        let prev = cache_fold(m, lines.drop_last());
        match parse_line_spec(lines.last()) {
            Some((k, e)) => prev.insert(k, e),
            None => prev,
        }
    }
}

/// The entries a cache file's text holds.
pub open spec fn cache_parse_spec(text: Seq<char>) -> Map<Seq<char>, EntryView> {
    cache_fold(Map::empty(), lines_spec(text))
}

/// One cache line, without its newline.
pub open spec fn cache_line_spec(k: Seq<char>, e: EntryView) -> Seq<char> {
    join_spec(
        seq![
            k,
            dec_spec(e.size as nat),
            dec_spec(e.mtime.secs as nat),
            dec_spec(e.mtime.nanos as nat),
            dec_spec(e.inode as nat),
            dec_spec(e.ctime.secs as nat),
            dec_spec(e.ctime.nanos as nat),
            hex_spec(e.id),
        ],
        '\t',
    )
}

/// The cache file's text: one line per entry, in path order.
pub open spec fn cache_text_spec(s: Seq<(Seq<char>, EntryView)>) -> Seq<char>
    decreases s.len(),
{
    if s.len() == 0 {
        Seq::empty()
    } else {
        cache_text_spec(s.drop_last()) + cache_line_spec(s.last().0, s.last().1).push('\n')
    }
}

/// An entry the cache file carries faithfully: a path free of tabs and
/// newlines, moments the clock can hold, a 32-byte id.
pub open spec fn line_ok(p: (Seq<char>, EntryView)) -> bool {
    &&& !p.0.contains('\t')
    &&& !p.0.contains('\n')
    &&& stamp_ok(p.1.mtime)
    &&& stamp_ok(p.1.ctime)
    &&& p.1.id.len() == 32
}

/// Every path and moment is one the cache file carries faithfully:
/// paths free of tabs and newlines, moments the clock can hold.
pub open spec fn map_ok(m: Map<Seq<char>, EntryView>) -> bool {
    forall|k: Seq<char>| #[trigger] m.dom().contains(k) ==> {
        &&& !k.contains('\t')
        &&& !k.contains('\n')
        &&& stamp_ok(m[k].mtime)
        &&& stamp_ok(m[k].ctime)
    }
}

/// Every entry is one the cache file carries faithfully.
pub open spec fn lines_ok(s: Seq<(Seq<char>, EntryView)>) -> bool {
    forall|i: int| 0 <= i < s.len() ==> line_ok(#[trigger] s[i])
}

pub open spec fn line_fn() -> spec_fn((Seq<char>, EntryView)) -> Seq<char> {
    |p: (Seq<char>, EntryView)| cache_line_spec(p.0, p.1)
}

proof fn lemma_dec_field(n: nat, max: nat)
    requires
        n <= max,
    ensures
        crate::text::parse_uint_spec(dec_spec(n), 10, max) == Some(n),
        !dec_spec(n).contains('\t'),
        !dec_spec(n).contains('\n'),
{
    lemma_fmt_uint(n, 10);
    lemma_digits_plain(dec_spec(n), 10);
    lemma_parse_fmt(n, 10, max);
}

pub open spec fn cache_fields(k: Seq<char>, e: EntryView) -> Seq<Seq<char>> {
    seq![
        k,
        dec_spec(e.size as nat),
        dec_spec(e.mtime.secs as nat),
        dec_spec(e.mtime.nanos as nat),
        dec_spec(e.inode as nat),
        dec_spec(e.ctime.secs as nat),
        dec_spec(e.ctime.nanos as nat),
        hex_spec(e.id),
    ]
}

/// A cache line splits back into its fields, and holds no newline and
/// no trailing carriage return.
#[verifier::spinoff_prover]
proof fn lemma_cache_line_split(k: Seq<char>, e: EntryView)
    requires
        line_ok((k, e)),
    ensures
        split_spec(cache_line_spec(k, e), '\t') == cache_fields(k, e),
        !cache_line_spec(k, e).contains('\n'),
        strip_cr(cache_line_spec(k, e)) == cache_line_spec(k, e),
{
    let f = cache_fields(k, e);
    assert(cache_line_spec(k, e) == join_spec(f, '\t'));
    lemma_dec_field(e.size as nat, u64::MAX as nat);
    lemma_dec_field(e.mtime.secs as nat, u64::MAX as nat);
    lemma_dec_field(e.mtime.nanos as nat, u32::MAX as nat);
    lemma_dec_field(e.inode as nat, u64::MAX as nat);
    lemma_dec_field(e.ctime.secs as nat, u64::MAX as nat);
    lemma_dec_field(e.ctime.nanos as nat, u32::MAX as nat);
    lemma_hex_round_trip(e.id);
    lemma_digits_plain(hex_spec(e.id), 16);
    assert(pieces_free_of(f, '\t'));
    assert(pieces_free_of(f, '\n'));
    lemma_split_join(f, '\t');
    lemma_join_free(f, '\t', '\n');
    let line = join_spec(f, '\t');
    assert(line == join_spec(f.drop_last(), '\t').push('\t') + f.last());
    assert(line.last() == hex_spec(e.id).last());
    assert(hex_spec(e.id).contains(hex_spec(e.id).last())) by {
        assert(hex_spec(e.id)[hex_spec(e.id).len() - 1] == hex_spec(e.id).last());
    }
}

proof fn lemma_parse_fields(line: Seq<char>, k: Seq<char>, e: EntryView)
    requires
        split_spec(line, '\t').len() == 8,
        split_spec(line, '\t')[0] == k,
        parse_u64_spec(split_spec(line, '\t')[1]) == Some(e.size as nat),
        parse_u64_spec(split_spec(line, '\t')[2]) == Some(e.mtime.secs as nat),
        parse_u32_spec(split_spec(line, '\t')[3]) == Some(e.mtime.nanos as nat),
        parse_u64_spec(split_spec(line, '\t')[4]) == Some(e.inode as nat),
        parse_u64_spec(split_spec(line, '\t')[5]) == Some(e.ctime.secs as nat),
        parse_u32_spec(split_spec(line, '\t')[6]) == Some(e.ctime.nanos as nat),
        from_hex_spec(split_spec(line, '\t')[7]) == Some(e.id),
        stamp_from_spec(e.mtime.secs as nat, e.mtime.nanos as nat) == Some(e.mtime),
        stamp_from_spec(e.ctime.secs as nat, e.ctime.nanos as nat) == Some(e.ctime),
    ensures
        parse_line_spec(line) == Some((k, e)),
{
}

proof fn lemma_stamp_parts(t: Timestamp)
    requires
        stamp_ok(t),
    ensures
        stamp_from_spec(t.secs as nat, t.nanos as nat) == Some(t),
{
    assert((t.nanos as nat) / 1_000_000_000nat == 0);
    assert((t.nanos as nat) % 1_000_000_000nat == t.nanos as nat);
}

/// One cache line parses back to the entry it was written from.
proof fn lemma_cache_line(k: Seq<char>, e: EntryView)
    requires
        line_ok((k, e)),
    ensures
        parse_line_spec(cache_line_spec(k, e)) == Some((k, e)),
        !cache_line_spec(k, e).contains('\n'),
        strip_cr(cache_line_spec(k, e)) == cache_line_spec(k, e),
{
    lemma_cache_line_split(k, e);
    let line = cache_line_spec(k, e);
    let f = cache_fields(k, e);
    assert(parse_u64_spec(f[1]) == Some(e.size as nat)) by {
        lemma_dec_field(e.size as nat, u64::MAX as nat);
    }
    assert(parse_u64_spec(f[2]) == Some(e.mtime.secs as nat)) by {
        lemma_dec_field(e.mtime.secs as nat, u64::MAX as nat);
    }
    assert(parse_u32_spec(f[3]) == Some(e.mtime.nanos as nat)) by {
        lemma_dec_field(e.mtime.nanos as nat, u32::MAX as nat);
    }
    assert(parse_u64_spec(f[4]) == Some(e.inode as nat)) by {
        lemma_dec_field(e.inode as nat, u64::MAX as nat);
    }
    assert(parse_u64_spec(f[5]) == Some(e.ctime.secs as nat)) by {
        lemma_dec_field(e.ctime.secs as nat, u64::MAX as nat);
    }
    assert(parse_u32_spec(f[6]) == Some(e.ctime.nanos as nat)) by {
        lemma_dec_field(e.ctime.nanos as nat, u32::MAX as nat);
    }
    assert(from_hex_spec(f[7]) == Some(e.id)) by {
        lemma_hex_round_trip(e.id);
    }
    lemma_stamp_parts(e.mtime);
    lemma_stamp_parts(e.ctime);
    lemma_parse_fields(line, k, e);
}

proof fn lemma_cache_text_terminated(s: Seq<(Seq<char>, EntryView)>)
    ensures
        cache_text_spec(s) == terminated_spec(s.map_values(line_fn())),
    decreases s.len(),
{
    if s.len() > 0 {
        lemma_cache_text_terminated(s.drop_last());
        assert(s.drop_last().map_values(line_fn()) =~= s.map_values(line_fn()).drop_last());
    }
}

pub proof fn lemma_lines_of_terminated(lines: Seq<Seq<char>>)
    requires
        pieces_free_of(lines, '\n'),
        forall|i: int| 0 <= i < lines.len() ==> strip_cr(#[trigger] lines[i]) == lines[i],
    ensures
        lines_spec(terminated_spec(lines)) == lines,
{
    if lines.len() == 0 {
        assert(terminated_spec(lines) =~= Seq::<char>::empty());
        assert(split_spec(Seq::<char>::empty(), '\n') == seq![Seq::<char>::empty()]);
        assert(lines_spec(terminated_spec(lines)) =~= lines);
    } else {
        lemma_terminated_join(lines);
        let ps = lines.push(Seq::<char>::empty());
        assert(ps.drop_last() =~= lines);
        assert(join_spec(ps, '\n') == join_spec(lines, '\n').push('\n') + Seq::<char>::empty());
        assert(join_spec(ps, '\n') =~= terminated_spec(lines));
        assert forall|i: int| 0 <= i < ps.len() implies !(#[trigger] ps[i]).contains('\n') by {
            if i < lines.len() {
                assert(ps[i] == lines[i]);
            }
        }
        lemma_split_join(ps, '\n');
        let t = split_spec(terminated_spec(lines), '\n');
        assert(t == ps);
        assert(t.drop_last().map_values(crate::text::strip_cr_fn()) =~= lines);
    }
}

proof fn lemma_fold_lines(s: Seq<(Seq<char>, EntryView)>, n: int)
    requires
        lines_ok(s),
        0 <= n <= s.len(),
    ensures
        cache_fold(Map::empty(), s.map_values(line_fn()).take(n)) == map_of(s.take(n)),
    decreases n,
{
    let lines = s.map_values(line_fn());
    if n == 0 {
        assert(lines.take(0) =~= Seq::<Seq<char>>::empty());
        assert(s.take(0) =~= Seq::<(Seq<char>, EntryView)>::empty());
    } else {
        lemma_fold_lines(s, n - 1);
        assert(lines.take(n).drop_last() =~= lines.take(n - 1));
        assert(s.take(n).drop_last() =~= s.take(n - 1));
        assert(line_ok(s[n - 1]));
        lemma_cache_line(s[n - 1].0, s[n - 1].1);
        assert(lines.take(n).last() == cache_line_spec(s[n - 1].0, s[n - 1].1));
    }
}

/// Round trip: the text a cache serializes to reads back as the same
/// entries, for every cache whose paths hold no tab or newline and
/// whose moments the clock can hold.
pub proof fn lemma_cache_round_trip(s: Seq<(Seq<char>, EntryView)>)
    requires
        lines_ok(s),
    ensures
        cache_parse_spec(cache_text_spec(s)) == map_of(s),
{
    let lines = s.map_values(line_fn());
    lemma_cache_text_terminated(s);
    assert forall|i: int| 0 <= i < lines.len() implies !(#[trigger] lines[i]).contains('\n') && strip_cr(
        lines[i],
    ) == lines[i] by {
        assert(line_ok(s[i]));
        lemma_cache_line(s[i].0, s[i].1);
    }
    lemma_lines_of_terminated(lines);
    lemma_fold_lines(s, s.len() as int);
    assert(lines.take(s.len() as int) =~= lines);
    assert(s.take(s.len() as int) =~= s);
}

impl ValidationCache {
    /// The entries, in path order.
    pub closed spec fn pairs(&self) -> Seq<(Seq<char>, EntryView)> {
        pairs_view(self.entries@)
    }

    /// The entries as a map from path.
    pub open spec fn map(&self) -> Map<Seq<char>, EntryView> {
        map_of(self.pairs())
    }

    /// The store root the cache file lives in.
    pub closed spec fn root_spec(&self) -> Seq<char> {
        self.root@
    }

    /// Whether something was recorded since the cache was opened or
    /// last saved.
    pub closed spec fn dirty_spec(&self) -> bool {
        self.dirty
    }

    #[verifier::type_invariant]
    closed spec fn sorted(&self) -> bool {
        paths_increasing(pairs_view(self.entries@))
    }

    proof fn lemma_unique(&self)
        requires
            paths_increasing(self.pairs()),
        ensures
            keys_unique(self.pairs()),
    {
        let s = self.pairs();
        assert forall|i: int, j: int| #![trigger s[i], s[j]] 0 <= i < j < s.len() implies s[i].0 != s[j].0 by {
            lemma_chars_order(s[i].0, s[j].0, s[i].0);
        }
    }

    /// The cache of the store at `root`, from the text of its cache file
    /// when that could be read (`None` for a missing or unreadable
    /// file, which gives an empty cache).
    pub fn open(root: &str, text: Option<&str>) -> (c: ValidationCache)
        ensures
            c.root_spec() == root@,
            !c.dirty_spec(),
            c.map() == match text {
                Some(t) => cache_parse_spec(t@),
                None => Map::empty(),
            },
    {
        let mut c = ValidationCache { root: root.to_owned(), entries: Vec::new(), dirty: false };
        assert(c.pairs() =~= Seq::<(Seq<char>, EntryView)>::empty());
        assert(c.map() =~= Map::<Seq<char>, EntryView>::empty());
        match text {
            Some(t) => {
                let lines = lines_of(&chars_of(t));
                let ghost ls = seqs_of(lines@);
                assert(ls.take(0) =~= Seq::<Seq<char>>::empty());
                for i in 0..lines.len()
                    invariant
                        ls == seqs_of(lines@),
                        ls == lines_spec(t@),
                        c.root_spec() == root@,
                        !c.dirty_spec(),
                        c.map() == cache_fold(Map::empty(), ls.take(i as int)),
                {
                    assert(ls.take(i + 1).drop_last() =~= ls.take(i as int));
                    assert(ls.take(i + 1).last() == lines[i as int]@);
                    match parse_line(&lines[i]) {
                        Some((k, e)) => {
                            c.put(k, e);
                        },
                        None => {},
                    }
                }
                assert(ls.take(lines.len() as int) =~= ls);
            },
            None => {},
        }
        c
    }

    /// Position of `rel` among the entries, or where it would go.
    fn search(&self, rel: &Vec<char>) -> (r: Result<usize, usize>)
        ensures
            match r {
                Ok(p) => p < self.pairs().len() && self.pairs()[p as int].0 == rel@,
                Err(p) => p <= self.pairs().len() && (forall|i: int|
                    0 <= i < p ==> chars_lt(#[trigger] self.pairs()[i].0, rel@)) && (forall|i: int|
                    p <= i < self.pairs().len() ==> chars_lt(rel@, #[trigger] self.pairs()[i].0)),
            },
    {
        proof {
            use_type_invariant(self);
        }
        let ghost s = self.pairs();
        let mut lo: usize = 0;
        let mut hi: usize = self.entries.len();
        while lo < hi
            invariant
                s == self.pairs(),
                paths_increasing(s),
                s.len() == self.entries.len(),
                0 <= lo <= hi <= s.len(),
                forall|i: int| 0 <= i < lo ==> chars_lt(#[trigger] s[i].0, rel@),
                forall|i: int| hi <= i < s.len() ==> chars_lt(rel@, #[trigger] s[i].0),
            decreases hi - lo,
        {
            let mid = lo + (hi - lo) / 2;
            assert(s[mid as int].0 == self.entries@[mid as int].0@);
            let o = order_chars(&chars_of(self.entries[mid].0.as_str()), rel);
            if o == 0 {
                return Ok(mid);
            } else if o < 0 {
                assert forall|i: int| 0 <= i < mid + 1 implies chars_lt(#[trigger] s[i].0, rel@) by {
                    if i < mid {
                        lemma_chars_order(s[i].0, s[mid as int].0, rel@);
                    }
                }
                lo = mid + 1;
            } else {
                assert forall|i: int| mid <= i < s.len() implies chars_lt(rel@, #[trigger] s[i].0) by {
                    if i > mid {
                        lemma_chars_order(rel@, s[mid as int].0, s[i].0);
                    }
                }
                hi = mid;
            }
        }
        Err(lo)
    }

    /// Store `e` for `k`, keeping path order.
    fn put(&mut self, k: String, e: Entry)
        ensures
            final(self).map() == old(self).map().insert(k@, e@),
            final(self).root_spec() == old(self).root_spec(),
            final(self).dirty_spec() == old(self).dirty_spec(),
    {
        proof {
            use_type_invariant(&*self);
            self.lemma_unique();
        }
        let ghost s = self.pairs();
        let kv = chars_of(k.as_str());
        match self.search(&kv) {
            Ok(p) => {
                let ghost key = s[p as int].0;
                let mut v: Vec<(String, Entry)> = Vec::new();
                std::mem::swap(&mut v, &mut self.entries);
                v.set(p, (k, e));
                proof {
                    assert(pairs_view(v@) =~= s.update(p as int, (key, e@)));
                    lemma_map_of_update(s, p as int, e@);
                    let t = pairs_view(v@);
                    assert forall|i: int, j: int| #![trigger t[i], t[j]] 0 <= i < j < t.len() implies chars_lt(t[i].0, t[j].0) by {
                        assert(s[i].0 == t[i].0 && s[j].0 == t[j].0);
                    }
                }
                self.entries = v;
                proof {
                    lemma_map_of_update(s, p as int, e@);
                    assert(self.pairs() =~= s.update(p as int, (key, e@)));
                }
            },
            Err(p) => {
                proof {
                    assert forall|i: int| 0 <= i < s.len() implies (#[trigger] s[i]).0 != k@ by {
                        if i < p {
                            lemma_chars_order(s[i].0, k@, s[i].0);
                        } else {
                            lemma_chars_order(k@, s[i].0, k@);
                        }
                    }
                    lemma_map_of_insert(s, p as int, k@, e@);
                }
                let ghost kview = k@;
                let mut v: Vec<(String, Entry)> = Vec::new();
                std::mem::swap(&mut v, &mut self.entries);
                v.insert(p, (k, e));
                proof {
                    assert(pairs_view(v@) =~= s.insert(p as int, (kview, e@)));
                    let t = pairs_view(v@);
                    assert forall|i: int, j: int| #![trigger t[i], t[j]] 0 <= i < j < t.len() implies chars_lt(t[i].0, t[j].0) by {
                        if i < p && j > p {
                            lemma_chars_order(t[i].0, kview, t[j].0);
                        }
                    }
                }
                self.entries = v;
            },
        }
    }

    /// The stored content id for `rel`, as [`lookup_spec`] states:
    /// recorded size, mtime, inode and ctime must match what the caller
    /// just saw, and the mtime must not be within two seconds of `now`.
    pub fn lookup_at(
        &self,
        rel: &str,
        size: u64,
        mtime: Timestamp,
        inode: u64,
        ctime: Timestamp,
        now: Timestamp,
    ) -> (r: Option<ContentId>)
        ensures
            match r {
                Some(id) => lookup_spec(self.map(), rel@, size, mtime, inode, ctime, now) == Some(
                    id.0@,
                ),
                None => lookup_spec(self.map(), rel@, size, mtime, inode, ctime, now) is None,
            },
    {
        proof {
            use_type_invariant(self);
            self.lemma_unique();
            lemma_map_of_dom(self.pairs(), rel@);
        }
        let p = match self.search(&chars_of(rel)) {
            Ok(p) => p,
            Err(p) => {
                proof {
                    if self.map().dom().contains(rel@) {
                        let i = choose|i: int| 0 <= i < self.pairs().len() && #[trigger] self.pairs()[i].0 == rel@;
                        lemma_chars_order(rel@, rel@, rel@);
                    }
                }
                return None;
            },
        };
        proof {
            lemma_map_of_at(self.pairs(), p as int);
        }
        let e = self.entries[p].1;
        assert(self.pairs()[p as int].1 == e@);
        if e.size != size || e.mtime != mtime {
            return None;
        }
        if e.inode != 0 && e.inode != inode {
            return None;
        }
        if e.ctime != Timestamp::epoch() && e.ctime != ctime {
            return None;
        }
        if within_two_secs_exec(now, mtime) {
            return None;
        }
        Some(e.id)
    }

    /// Record what this ingest learned about one file.
    pub fn record(&mut self, rel: String, entry: Entry)
        ensures
            final(self).map() == old(self).map().insert(rel@, entry@),
            final(self).dirty_spec(),
            final(self).root_spec() == old(self).root_spec(),
    {
        self.put(rel, entry);
        proof {
            use_type_invariant(&*self);
        }
        self.dirty = true;
    }

    /// Number of recorded paths.
    pub fn len(&self) -> (n: usize)
        ensures
            n == self.map().len(),
    {
        proof {
            use_type_invariant(self);
            self.lemma_unique();
            lemma_map_len(self.pairs());
        }
        self.entries.len()
    }

    /// True if nothing is recorded.
    pub fn is_empty(&self) -> (b: bool)
        ensures
            b == (self.map().len() == 0),
    {
        self.len() == 0
    }

    /// The entry recorded for `rel`, if any.
    pub fn get(&self, rel: &str) -> (r: Option<Entry>)
        ensures
            match r {
                Some(e) => self.map().dom().contains(rel@) && self.map()[rel@] == e@,
                None => !self.map().dom().contains(rel@),
            },
    {
        proof {
            use_type_invariant(self);
            self.lemma_unique();
            lemma_map_of_dom(self.pairs(), rel@);
        }
        match self.search(&chars_of(rel)) {
            Ok(p) => {
                proof {
                    lemma_map_of_at(self.pairs(), p as int);
                }
                assert(self.pairs()[p as int].1 == self.entries@[p as int].1@);
                Some(self.entries[p].1)
            },
            Err(p) => {
                proof {
                    if self.map().dom().contains(rel@) {
                        let i = choose|i: int| 0 <= i < self.pairs().len() && #[trigger] self.pairs()[i].0 == rel@;
                        lemma_chars_order(rel@, rel@, rel@);
                    }
                }
                None
            },
        }
    }

    /// Whether a save has anything to write.
    pub fn is_dirty(&self) -> (b: bool)
        ensures
            b == self.dirty_spec(),
    {
        self.dirty
    }

    /// The store root the cache file lives in.
    pub fn root(&self) -> (r: &str)
        ensures
            r@ == self.root_spec(),
    {
        self.root.as_str()
    }

    /// Path of the cache file: `<root>/ingest-cache.tsv`.
    pub fn path(&self) -> (r: String)
        ensures
            r@ == crate::paths::path_join(self.root_spec(), "ingest-cache.tsv"@),
    {
        crate::paths::join_path(self.root.as_str(), "ingest-cache.tsv")
    }

    /// The cache file's text: every entry in path order.
    pub fn serialize(&self) -> (r: String)
        ensures
            r@ == cache_text_spec(self.pairs()),
            map_ok(self.map()) ==> cache_parse_spec(r@) == self.map(),
    {
        proof {
            if map_ok(self.map()) {
                use_type_invariant(self);
                self.lemma_unique();
                let ps = self.pairs();
                assert forall|i: int| 0 <= i < ps.len() implies line_ok(#[trigger] ps[i]) by {
                    lemma_map_of_at(ps, i);
                    assert(self.map().dom().contains(ps[i].0));
                    assert(ps[i] == (self.entries@[i].0@, self.entries@[i].1@));
                }
                lemma_cache_round_trip(ps);
            }
        }
        let ghost s = self.pairs();
        let mut out: Vec<char> = Vec::new();
        assert(s.take(0) =~= Seq::<(Seq<char>, EntryView)>::empty());
        for i in 0..self.entries.len()
            invariant
                s == self.pairs(),
                s.len() == self.entries.len(),
                out@ == cache_text_spec(s.take(i as int)),
        {
            let (k, e) = (&self.entries[i].0, self.entries[i].1);
            assert(s[i as int] == (k@, e@));
            let mut fields: Vec<Vec<char>> = Vec::new();
            fields.push(chars_of(k.as_str()));
            fields.push(dec_chars(e.size));
            fields.push(dec_chars(e.mtime.secs));
            fields.push(dec_chars(e.mtime.nanos as u64));
            fields.push(dec_chars(e.inode));
            fields.push(dec_chars(e.ctime.secs));
            fields.push(dec_chars(e.ctime.nanos as u64));
            fields.push(e.id.hex_chars());
            assert(seqs_of(fields@) =~= seq![
                k@,
                dec_spec(e.size as nat),
                dec_spec(e.mtime.secs as nat),
                dec_spec(e.mtime.nanos as nat),
                dec_spec(e.inode as nat),
                dec_spec(e.ctime.secs as nat),
                dec_spec(e.ctime.nanos as nat),
                hex_spec(e.id.0@),
            ]);
            let line = crate::mirror::tab_line(&fields);
            extend_chars(&mut out, &line);
            out.push('\n');
            assert(s.take(i + 1).drop_last() =~= s.take(i as int));
            assert(out@ =~= cache_text_spec(s.take(i + 1)));
        }
        assert(s.take(self.entries.len() as int) =~= s);
        string_of(&out)
    }

    /// Note that the cache's text was written out.
    pub fn mark_saved(&mut self)
        ensures
            !final(self).dirty_spec(),
            final(self).map() == old(self).map(),
            final(self).pairs() == old(self).pairs(),
            final(self).root_spec() == old(self).root_spec(),
    {
        proof {
            use_type_invariant(&*self);
        }
        self.dirty = false;
    }
}

/// A map's size is its number of distinct keys.
proof fn lemma_map_len(s: Seq<(Seq<char>, EntryView)>)
    requires
        keys_unique(s),
    ensures
        map_of(s).len() == s.len(),
        map_of(s).dom().finite(),
    decreases s.len(),
{
    if s.len() > 0 {
        let init = s.drop_last();
        assert(keys_unique(init)) by {
            assert forall|a: int, b: int| #![trigger init[a], init[b]] 0 <= a < b < init.len() implies init[a].0 != init[b].0 by {
                assert(init[a] == s[a] && init[b] == s[b]);
            }
        }
        lemma_map_len(init);
        lemma_map_of_dom(init, s.last().0);
        if map_of(init).dom().contains(s.last().0) {
            let i = choose|i: int| 0 <= i < init.len() && #[trigger] init[i].0 == s.last().0;
            assert(s[i].0 != s[s.len() - 1].0);
        }
    } else {
        assert(map_of(s).dom() =~= Set::<Seq<char>>::empty());
    }
}

fn parse_line(line: &Vec<char>) -> (r: Option<(String, Entry)>)
    ensures
        match r {
            Some(p) => parse_line_spec(line@) == Some(pair_view(p)),
            None => parse_line_spec(line@) is None,
        },
{
    let f = split_chars(line, '\t');
    let ghost fs = seqs_of(f@);
    if f.len() == 8 {
        assert(fs[0] == f[0]@ && fs[1] == f[1]@ && fs[2] == f[2]@ && fs[3] == f[3]@ && fs[4]
            == f[4]@ && fs[5] == f[5]@ && fs[6] == f[6]@ && fs[7] == f[7]@);
        let (size, ms, mn, inode, cs, cn) = match (
            parse_u64(&f[1]),
            parse_u64(&f[2]),
            parse_u32(&f[3]),
            parse_u64(&f[4]),
            parse_u64(&f[5]),
            parse_u32(&f[6]),
        ) {
            (Some(a), Some(b), Some(c), Some(d), Some(e), Some(g)) => (a, b, c, d, e, g),
            _ => {
                return None;
            },
        };
        let id = match ContentId::from_hex_chars(&f[7]) {
            Some(id) => id,
            None => {
                return None;
            },
        };
        let mtime = match Timestamp::from_parts(ms, mn) {
            Some(t) => t,
            None => {
                return None;
            },
        };
        let ctime = match Timestamp::from_parts(cs, cn) {
            Some(t) => t,
            None => {
                return None;
            },
        };
        Some((string_of(&f[0]), Entry { size, mtime, inode, ctime, id }))
    } else if f.len() == 5 {
        assert(fs[0] == f[0]@ && fs[1] == f[1]@ && fs[2] == f[2]@ && fs[3] == f[3]@ && fs[4]
            == f[4]@);
        let (size, ms, mn) = match (parse_u64(&f[1]), parse_u64(&f[2]), parse_u32(&f[3])) {
            (Some(a), Some(b), Some(c)) => (a, b, c),
            _ => {
                return None;
            },
        };
        let id = match ContentId::from_hex_chars(&f[4]) {
            Some(id) => id,
            None => {
                return None;
            },
        };
        let mtime = match Timestamp::from_parts(ms, mn) {
            Some(t) => t,
            None => {
                return None;
            },
        };
        Some(
            (
                string_of(&f[0]),
                Entry { size, mtime, inode: 0, ctime: Timestamp::epoch(), id },
            ),
        )
    } else {
        None
    }
}

} // verus!
