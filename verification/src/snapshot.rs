//! Whole-directory snapshots: the canonical manifest, its TSV codec,
//! the content hash that names a published snapshot, and where a
//! snapshot lives in the store.
//!
//! Canonical manifest format (`<TAB>` marks a literal tab):
//!
//! ```text
//! v1<TAB>manifest-sha256<TAB><64-hex-hash>[<TAB>lockfile-sha256<TAB><64-hex>][<TAB>total-bytes<TAB><n>]
//! entry<TAB><escaped-relpath><TAB><kind><TAB><octal-mode><TAB><ref>
//! ```
//!
//! - `kind` is exactly `file`, `symlink`, or `dir`.
//! - A `file` ref is the 64-hex blob id; a `symlink` ref is the escaped
//!   target; a `dir` ref is literally `-`.
//! - Relpaths use forward slashes, no empty component, no `.` or `..`,
//!   never absolute; escaping is the mirror percent escaping.
//! - Entries are sorted by path (code point order, which is also the
//!   byte order of UTF-8), then kind.
//! - The manifest hash is SHA-256 of the exact serialized entry bytes,
//!   excluding the header line.
//!
//! Modes are normalized when entries are made: files carry 0o755 when
//! any execute bit was set, else 0o644; dirs 0o755; symlinks 0o777.

use vstd::prelude::*;

use crate::hash::{sha256, spec_sha256};
use crate::mirror::{
    escape_chars, escape_spec, kw_v1, lemma_escape_framing_free, lemma_escape_plain,
    lemma_filter_all_nonempty, lemma_keywords_plain, lemma_plain_word_free, plain_word,
    lemma_terminated_body, lemma_terminated_join, lemma_unescape_escape, tab_line,
    terminated_spec, text_message, unescape_chars, unescape_spec,
};
use crate::order::{chars_lt, lemma_chars_order, order_chars};
use crate::text::{
    cat2, cat3, cat4, chars_eq, chars_of, debug_quote, debug_text, dec_chars, dec_spec, extend_chars, fmt_uint, fmt_uint_spec, join_spec,
    last_index_spec, lemma_digits_plain, lemma_fmt_uint, lemma_join_free, lemma_last_index,
    lemma_parse_fmt, lemma_split_first, lemma_split_join, lemma_split_nonempty, nonempty_fn,
    parse_u64, parse_u64_spec, parse_uint, parse_uint_spec, pieces_free_of, rfind_char,
    seqs_of, slice_chars, split_chars, split_spec, string_of,
};
use crate::{from_hex_spec, hex_spec, lemma_hex_round_trip, ContentId};

verus! {

/// Normalized mode for a regular file with any execute bit set.
pub const EXEC_FILE_MODE: u32 = 0o755;

/// Normalized mode for a plain regular file.
pub const PLAIN_FILE_MODE: u32 = 0o644;

/// Normalized mode for directories.
pub const DIR_MODE: u32 = 0o755;

/// Conventional mode for symlinks.
pub const SYMLINK_MODE: u32 = 0o777;

/// What a manifest entry is.
#[derive(Debug, Clone, Copy, PartialEq, Eq, Structural, PartialOrd, Ord)]
pub enum EntryKind {
    File,
    Symlink,
    Dir,
}

/// Position of a kind in the canonical order.
pub open spec fn kind_rank(k: EntryKind) -> int {
    match k {
        EntryKind::File => 0,
        EntryKind::Symlink => 1,
        EntryKind::Dir => 2,
    }
}

/// The word a kind is written as.
pub open spec fn kind_text(k: EntryKind) -> Seq<char> {
    match k {
        EntryKind::File => seq!['f', 'i', 'l', 'e'],
        EntryKind::Symlink => seq!['s', 'y', 'm', 'l', 'i', 'n', 'k'],
        EntryKind::Dir => seq!['d', 'i', 'r'],
    }
}

/// The kind a word names.
pub open spec fn kind_parse_spec(t: Seq<char>) -> Option<EntryKind> {
    if t == kind_text(EntryKind::File) {
        Some(EntryKind::File)
    } else if t == kind_text(EntryKind::Symlink) {
        Some(EntryKind::Symlink)
    } else if t == kind_text(EntryKind::Dir) {
        Some(EntryKind::Dir)
    } else {
        None
    }
}

impl EntryKind {
    fn rank(self) -> (r: u8)
        ensures
            r as int == kind_rank(self),
    {
        match self {
            EntryKind::File => 0,
            EntryKind::Symlink => 1,
            EntryKind::Dir => 2,
        }
    }

    fn as_chars(self) -> (r: Vec<char>)
        ensures
            r@ == kind_text(self),
    {
        let r = match self {
            EntryKind::File => vec!['f', 'i', 'l', 'e'],
            EntryKind::Symlink => vec!['s', 'y', 'm', 'l', 'i', 'n', 'k'],
            EntryKind::Dir => vec!['d', 'i', 'r'],
        };
        assert(r@ =~= kind_text(self));
        r
    }

    fn parse(t: &Vec<char>) -> (r: Option<EntryKind>)
        ensures
            r == kind_parse_spec(t@),
    {
        if chars_eq(t, &EntryKind::File.as_chars()) {
            Some(EntryKind::File)
        } else if chars_eq(t, &EntryKind::Symlink.as_chars()) {
            Some(EntryKind::Symlink)
        } else if chars_eq(t, &EntryKind::Dir.as_chars()) {
            Some(EntryKind::Dir)
        } else {
            None
        }
    }
}

/// One canonical manifest entry. `blob` is set for files, `target` for
/// symlinks; dirs carry neither. `mode` is the normalized octal mode.
#[derive(Debug, PartialEq, Eq)]
pub struct SnapshotEntry {
    pub rel: String,
    pub kind: EntryKind,
    pub mode: u32,
    pub blob: Option<ContentId>,
    pub target: Option<String>,
}

/// A manifest entry as plain values.
pub struct EntryView {
    pub rel: Seq<char>,
    pub kind: EntryKind,
    pub mode: u32,
    pub blob: Option<Seq<u8>>,
    pub target: Option<Seq<char>>,
}

impl View for SnapshotEntry {
    type V = EntryView;

    open spec fn view(&self) -> EntryView {
        EntryView {
            rel: self.rel@,
            kind: self.kind,
            mode: self.mode,
            blob: match self.blob {
                Some(b) => Some(b.0@),
                None => None,
            },
            target: match self.target {
                Some(t) => Some(t@),
                None => None,
            },
        }
    }
}

impl Clone for SnapshotEntry {
    fn clone(&self) -> (r: SnapshotEntry)
        ensures
            r == *self,
    {
        SnapshotEntry {
            rel: self.rel.clone(),
            kind: self.kind,
            mode: self.mode,
            blob: self.blob,
            target: match &self.target {
                Some(t) => Some(t.clone()),
                None => None,
            },
        }
    }
}

/// The normalized mode of a regular file: executable when any execute
/// bit is set.
pub open spec fn normalized_mode_spec(raw_mode: u32) -> u32 {
    if raw_mode & 0o111 != 0 {
        EXEC_FILE_MODE
    } else {
        PLAIN_FILE_MODE
    }
}

/// The normalized mode of a regular file, as [`normalized_mode_spec`]
/// states.
pub fn normalized_file_mode(raw_mode: u32) -> (r: u32)
    ensures
        r == normalized_mode_spec(raw_mode),
{
    if raw_mode & 0o111 != 0 {
        EXEC_FILE_MODE
    } else {
        PLAIN_FILE_MODE
    }
}

impl SnapshotEntry {
    /// A regular-file entry; `raw_mode` decides executable-ness only.
    pub fn file(rel: &str, blob: ContentId, raw_mode: u32) -> (e: SnapshotEntry)
        ensures
            e@ == (EntryView {
                rel: rel@,
                kind: EntryKind::File,
                mode: normalized_mode_spec(raw_mode),
                blob: Some(blob.0@),
                target: None,
            }),
    {
        SnapshotEntry {
            rel: rel.to_owned(),
            kind: EntryKind::File,
            mode: normalized_file_mode(raw_mode),
            blob: Some(blob),
            target: None,
        }
    }

    /// An explicit directory entry (empty dirs must not vanish).
    pub fn dir(rel: &str) -> (e: SnapshotEntry)
        ensures
            e@ == (EntryView {
                rel: rel@,
                kind: EntryKind::Dir,
                mode: DIR_MODE,
                blob: None,
                target: None,
            }),
    {
        SnapshotEntry {
            rel: rel.to_owned(),
            kind: EntryKind::Dir,
            mode: DIR_MODE,
            blob: None,
            target: None,
        }
    }

    /// A symlink entry; the target is recorded, never dereferenced.
    pub fn symlink(rel: &str, target: &str) -> (e: SnapshotEntry)
        ensures
            e@ == (EntryView {
                rel: rel@,
                kind: EntryKind::Symlink,
                mode: SYMLINK_MODE,
                blob: None,
                target: Some(target@),
            }),
    {
        SnapshotEntry {
            rel: rel.to_owned(),
            kind: EntryKind::Symlink,
            mode: SYMLINK_MODE,
            blob: None,
            target: Some(target.to_owned()),
        }
    }
}

// ---------------------------------------------------------------------------
// Relpaths and entry validity
// ---------------------------------------------------------------------------

/// A path component that can stand in a canonical relpath.
pub open spec fn component_ok(c: Seq<char>) -> bool {
    c.len() > 0 && c != seq!['.'] && c != seq!['.', '.']
}

/// A canonical relpath: non-empty, not absolute, every `/`-separated
/// component non-empty and neither `.` nor `..`.
pub open spec fn rel_ok(rel: Seq<char>) -> bool {
    &&& rel.len() > 0
    &&& rel[0] != '/'
    &&& forall|i: int|
        0 <= i < split_spec(rel, '/').len() ==> component_ok(#[trigger] split_spec(rel, '/')[i])
}

/// The first component that cannot stand in a canonical relpath.
pub open spec fn first_bad_component(cs: Seq<Seq<char>>) -> Option<Seq<char>>
    decreases cs.len(),
{
    if cs.len() == 0 {
        None
    } else if !component_ok(cs[0]) {
        Some(cs[0])
    } else {
        first_bad_component(cs.drop_first())
    }
}

/// Why `rel` is not a canonical relpath, in the words the check
/// reports; `None` when it is one.
pub open spec fn rel_error(rel: Seq<char>) -> Option<Seq<char>> {
    if rel.len() == 0 {
        Some("relpath is empty"@)
    } else if rel[0] == '/' {
        Some("relpath "@ + debug_text(rel) + " is absolute"@)
    } else {
        match first_bad_component(split_spec(rel, '/')) {
            None => None,
            Some(c) => if c.len() == 0 {
                Some("relpath "@ + debug_text(rel) + " has an empty component"@)
            } else {
                Some("relpath "@ + debug_text(rel) + " contains "@ + debug_text(c))
            },
        }
    }
}

proof fn lemma_first_bad_skip(cs: Seq<Seq<char>>, i: int)
    requires
        0 <= i <= cs.len(),
        forall|j: int| 0 <= j < i ==> component_ok(#[trigger] cs[j]),
    ensures
        first_bad_component(cs) == first_bad_component(cs.skip(i)),
    decreases i,
{
    if i > 0 {
        assert(component_ok(cs[0]));
        let t = cs.drop_first();
        assert(first_bad_component(cs) == first_bad_component(t));
        assert forall|j: int| 0 <= j < i - 1 implies component_ok(#[trigger] t[j]) by {
            assert(t[j] == cs[j + 1]);
        }
        lemma_first_bad_skip(t, i - 1);
        assert(t.skip(i - 1) =~= cs.skip(i));
    } else {
        assert(cs.skip(0) =~= cs);
    }
}

proof fn lemma_first_bad_none(cs: Seq<Seq<char>>)
    ensures
        first_bad_component(cs) is None <==> forall|j: int| 0 <= j < cs.len() ==> component_ok(#[trigger] cs[j]),
    decreases cs.len(),
{
    if cs.len() > 0 {
        let t = cs.drop_first();
        lemma_first_bad_none(t);
        if first_bad_component(cs) is None {
            assert forall|j: int| 0 <= j < cs.len() implies component_ok(#[trigger] cs[j]) by {
                if j > 0 {
                    assert(cs[j] == t[j - 1]);
                }
            }
        } else if component_ok(cs[0]) {
            let j = choose|j: int| 0 <= j < t.len() && !component_ok(#[trigger] t[j]);
            assert(cs[j + 1] == t[j]);
        }
    }
}

/// Reject anything that cannot be a canonical relpath, saying why as
/// [`rel_error`] words it.
pub fn validate_rel(rel: &str) -> (r: Result<(), String>)
    ensures
        r is Ok <==> rel_ok(rel@),
        match r {
            Ok(()) => rel_error(rel@) is None,
            Err(m) => rel_error(rel@) == Some(m@),
        },
{
    let v = chars_of(rel);
    if v.len() == 0 {
        return Err(text_message("relpath is empty"));
    }
    if v[0] == '/' {
        return Err(cat3("relpath ", debug_quote(rel).as_str(), " is absolute"));
    }
    let comps = split_chars(&v, '/');
    let ghost cs = seqs_of(comps@);
    let dot = vec!['.'];
    let dotdot = vec!['.', '.'];
    assert(dot@ =~= seq!['.']);
    assert(dotdot@ =~= seq!['.', '.']);
    for i in 0..comps.len()
        invariant
            cs == seqs_of(comps@),
            cs == split_spec(v@, '/'),
            v@ == rel@,
            rel@.len() > 0,
            rel@[0] != '/',
            cs.len() == comps.len(),
            dot@ == seq!['.'],
            dotdot@ == seq!['.', '.'],
            forall|j: int| 0 <= j < i ==> component_ok(#[trigger] cs[j]),
    {
        assert(cs[i as int] == comps[i as int]@);
        if comps[i].len() == 0 || chars_eq(&comps[i], &dot) || chars_eq(&comps[i], &dotdot) {
            proof {
                lemma_first_bad_skip(cs, i as int);
                assert(cs.skip(i as int)[0] == cs[i as int]);
            }
            if comps[i].len() == 0 {
                return Err(cat3("relpath ", debug_quote(rel).as_str(), " has an empty component"));
            }
            let comp = string_of(&comps[i]);
            return Err(cat4("relpath ", debug_quote(rel).as_str(), " contains ", debug_quote(comp.as_str()).as_str()));
        }
    }
    proof {
        lemma_first_bad_none(cs);
    }
    Ok(())
}

/// An entry that can stand in a manifest: canonical relpath, and the
/// reference its kind calls for.
pub open spec fn entry_ok(e: EntryView) -> bool {
    &&& rel_ok(e.rel)
    &&& match e.kind {
        EntryKind::File => e.blob is Some && e.target is None,
        EntryKind::Symlink => e.target is Some && e.blob is None,
        EntryKind::Dir => e.blob is None && e.target is None,
    }
}

/// Why an entry cannot stand in a manifest, as the check words it;
/// `None` when it can.
pub open spec fn entry_error(e: EntryView) -> Option<Seq<char>> {
    match rel_error(e.rel) {
        Some(m) => Some(m),
        None => match e.kind {
            EntryKind::File => if e.blob is None || e.target is Some {
                Some("file entry "@ + e.rel + " lacks a blob ref"@)
            } else {
                None
            },
            EntryKind::Symlink => if e.target is None || e.blob is Some {
                Some("symlink entry "@ + e.rel + " lacks a target"@)
            } else {
                None
            },
            EntryKind::Dir => if e.blob is Some || e.target is Some {
                Some("dir entry "@ + e.rel + " carries a ref"@)
            } else {
                None
            },
        },
    }
}

/// The complaint about the first entry that cannot stand in a
/// manifest, in input order.
pub open spec fn first_entry_error(es: Seq<EntryView>) -> Option<Seq<char>>
    decreases es.len(),
{
    if es.len() == 0 {
        None
    } else {
        match entry_error(es[0]) {
            Some(m) => Some(m),
            None => first_entry_error(es.drop_first()),
        }
    }
}

/// What building a manifest from `es` complains of: the first entry
/// that cannot stand in a manifest, else a repeated path.
pub open spec fn new_error_ok(es: Seq<EntryView>, m: Seq<char>) -> bool {
    match first_entry_error(es) {
        Some(x) => m == x,
        None => exists|i: int| 0 <= i < es.len() && m == "duplicate relpath "@ + debug_text(#[trigger] es[i].rel),
    }
}

proof fn lemma_first_entry_error_skip(es: Seq<EntryView>, i: int)
    requires
        0 <= i <= es.len(),
        forall|j: int| 0 <= j < i ==> entry_error(#[trigger] es[j]) is None,
    ensures
        first_entry_error(es) == first_entry_error(es.skip(i)),
    decreases i,
{
    if i > 0 {
        assert(entry_error(es[0]) is None);
        let t = es.drop_first();
        assert(first_entry_error(es) == first_entry_error(t));
        assert forall|j: int| 0 <= j < i - 1 implies entry_error(#[trigger] t[j]) is None by {
            assert(t[j] == es[j + 1]);
        }
        lemma_first_entry_error_skip(t, i - 1);
        assert(t.skip(i - 1) =~= es.skip(i));
    } else {
        assert(es.skip(0) =~= es);
    }
}

fn check_entry(e: &SnapshotEntry) -> (r: Result<(), String>)
    ensures
        r is Ok <==> entry_ok(e@),
        match r {
            Ok(()) => entry_error(e@) is None,
            Err(m) => entry_error(e@) == Some(m@),
        },
{
    match validate_rel(e.rel.as_str()) {
        Ok(()) => {},
        Err(m) => {
            return Err(m);
        },
    }
    match e.kind {
        EntryKind::File => {
            if e.blob.is_none() || e.target.is_some() {
                return Err(cat3("file entry ", e.rel.as_str(), " lacks a blob ref"));
            }
        },
        EntryKind::Symlink => {
            if e.target.is_none() || e.blob.is_some() {
                return Err(cat3("symlink entry ", e.rel.as_str(), " lacks a target"));
            }
        },
        EntryKind::Dir => {
            if e.blob.is_some() || e.target.is_some() {
                return Err(cat3("dir entry ", e.rel.as_str(), " carries a ref"));
            }
        },
    }
    Ok(())
}

// ---------------------------------------------------------------------------
// Entry lines
// ---------------------------------------------------------------------------

pub open spec fn kw_entry() -> Seq<char> {
    seq!['e', 'n', 't', 'r', 'y']
}

/// The ref field of an entry: the blob id, the escaped target, or `-`.
pub open spec fn ref_text(e: EntryView) -> Seq<char> {
    match e.blob {
        Some(b) => hex_spec(b),
        None => match e.target {
            Some(t) => escape_spec(t),
            None => seq!['-'],
        },
    }
}

/// One entry line, without its newline.
pub open spec fn entry_line_spec(e: EntryView) -> Seq<char> {
    join_spec(
        seq![kw_entry(), escape_spec(e.rel), kind_text(e.kind), fmt_uint_spec(e.mode as nat, 8), ref_text(e)],
        '\t',
    )
}

/// The serialized entry region: every entry line followed by a newline.
pub open spec fn entries_text_spec(es: Seq<EntryView>) -> Seq<char>
    decreases es.len(),
{
    if es.len() == 0 {
        Seq::empty()
    } else {
        entries_text_spec(es.drop_last()) + entry_line_spec(es.last()).push('\n')
    }
}

pub open spec fn entries_view(es: Seq<SnapshotEntry>) -> Seq<EntryView> {
    es.map_values(|e: SnapshotEntry| e@)
}

fn kw_chars_entry() -> (r: Vec<char>)
    ensures
        r@ == kw_entry(),
{
    let r = vec!['e', 'n', 't', 'r', 'y'];
    assert(r@ =~= kw_entry());
    r
}

fn entry_line(e: &SnapshotEntry) -> (r: Vec<char>)
    ensures
        r@ == entry_line_spec(e@),
{
    let mut fields: Vec<Vec<char>> = Vec::new();
    fields.push(kw_chars_entry());
    fields.push(escape_chars(&chars_of(e.rel.as_str())));
    fields.push(e.kind.as_chars());
    fields.push(fmt_uint(e.mode as u64, 8));
    let r = match (&e.blob, &e.target) {
        (Some(b), _) => b.hex_chars(),
        (None, Some(t)) => escape_chars(&chars_of(t.as_str())),
        (None, None) => vec!['-'],
    };
    assert(r@ =~= ref_text(e@));
    fields.push(r);
    assert(seqs_of(fields@) =~= seq![
        kw_entry(),
        escape_spec(e@.rel),
        kind_text(e@.kind),
        fmt_uint_spec(e@.mode as nat, 8),
        ref_text(e@),
    ]);
    tab_line(&fields)
}

/// The entry region of a manifest: one line per entry, in order.
pub fn serialize_entries(entries: &Vec<SnapshotEntry>) -> (r: String)
    ensures
        r@ == entries_text_spec(entries_view(entries@)),
{
    let ghost es = entries_view(entries@);
    let mut out: Vec<char> = Vec::new();
    assert(es.take(0) =~= Seq::<EntryView>::empty());
    for i in 0..entries.len()
        invariant
            es == entries_view(entries@),
            out@ == entries_text_spec(es.take(i as int)),
    {
        let l = entry_line(&entries[i]);
        extend_chars(&mut out, &l);
        out.push('\n');
        assert(es.take(i + 1).drop_last() =~= es.take(i as int));
        assert(es.take(i + 1).last() == entries[i as int]@);
        assert(out@ =~= entries_text_spec(es.take(i + 1)));
    }
    assert(es.take(entries.len() as int) =~= es);
    string_of(&out)
}

// ---------------------------------------------------------------------------
// Canonical order
// ---------------------------------------------------------------------------

/// Canonical order: by path, then kind.
pub open spec fn entry_le(a: EntryView, b: EntryView) -> bool {
    chars_lt(a.rel, b.rel) || (a.rel == b.rel && kind_rank(a.kind) <= kind_rank(b.kind))
}

/// Entries in canonical order.
pub open spec fn entries_sorted(es: Seq<EntryView>) -> bool {
    forall|i: int, j: int| 0 <= i < j < es.len() ==> entry_le(#[trigger] es[i], #[trigger] es[j])
}

/// Entries strictly increasing by path: canonical order with no path
/// twice.
pub open spec fn rels_increasing(es: Seq<EntryView>) -> bool {
    forall|i: int, j: int| 0 <= i < j < es.len() ==> chars_lt(#[trigger] es[i].rel, #[trigger] es[j].rel)
}

proof fn lemma_entry_le_facts(a: EntryView, b: EntryView, c: EntryView)
    ensures
        entry_le(a, b) || entry_le(b, a),
        entry_le(a, b) && entry_le(b, c) ==> entry_le(a, c),
{
    lemma_chars_order(a.rel, b.rel, c.rel);
    lemma_chars_order(b.rel, a.rel, c.rel);
    lemma_chars_order(a.rel, c.rel, b.rel);
}

fn entry_le_exec(a: &SnapshotEntry, b: &SnapshotEntry) -> (r: bool)
    ensures
        r == entry_le(a@, b@),
{
    let o = order_chars(&chars_of(a.rel.as_str()), &chars_of(b.rel.as_str()));
    if o < 0 {
        true
    } else if o > 0 {
        false
    } else {
        a.kind.rank() <= b.kind.rank()
    }
}

proof fn lemma_view_push(s: Seq<SnapshotEntry>, e: SnapshotEntry)
    ensures
        entries_view(s.push(e)) == entries_view(s).push(e@),
{
    assert(entries_view(s.push(e)) =~= entries_view(s).push(e@));
}

fn merge_entries(a: Vec<SnapshotEntry>, b: Vec<SnapshotEntry>) -> (r: Vec<SnapshotEntry>)
    requires
        entries_sorted(entries_view(a@)),
        entries_sorted(entries_view(b@)),
    ensures
        entries_sorted(entries_view(r@)),
        entries_view(r@).to_multiset() == entries_view(a@).to_multiset().add(
            entries_view(b@).to_multiset(),
        ),
        r.len() == a.len() + b.len(),
{
    broadcast use vstd::seq_lib::group_to_multiset_ensures;
    broadcast use vstd::multiset::group_multiset_axioms;

    let ghost va = entries_view(a@);
    let ghost vb = entries_view(b@);
    let mut out: Vec<SnapshotEntry> = Vec::new();
    let mut i: usize = 0;
    let mut j: usize = 0;
    assert(va.take(0) =~= Seq::<EntryView>::empty());
    assert(vb.take(0) =~= Seq::<EntryView>::empty());
    assert(entries_view(out@) =~= Seq::<EntryView>::empty());
    while i < a.len() || j < b.len()
        invariant
            va == entries_view(a@),
            vb == entries_view(b@),
            entries_sorted(va),
            entries_sorted(vb),
            i <= a.len(),
            j <= b.len(),
            out.len() == i + j,
            entries_sorted(entries_view(out@)),
            entries_view(out@).to_multiset() == va.take(i as int).to_multiset().add(
                vb.take(j as int).to_multiset(),
            ),
            out.len() > 0 && i < a.len() ==> entry_le(entries_view(out@).last(), va[i as int]),
            out.len() > 0 && j < b.len() ==> entry_le(entries_view(out@).last(), vb[j as int]),
        decreases a.len() + b.len() - i - j,
    {
        let ghost vo = entries_view(out@);
        let take_a = if i < a.len() && j < b.len() {
            entry_le_exec(&a[i], &b[j])
        } else {
            i < a.len()
        };
        let e = if take_a {
            a[i].clone()
        } else {
            b[j].clone()
        };
        proof {
            lemma_view_push(out@, e);
            vstd::seq_lib::to_multiset_build(vo, e@);
            if take_a {
                assert(e@ == va[i as int]);
                assert(va.take(i + 1) =~= va.take(i as int).push(va[i as int]));
                vstd::seq_lib::to_multiset_build(va.take(i as int), va[i as int]);
                assert(va.take(i + 1).to_multiset().add(vb.take(j as int).to_multiset()) =~= va.take(
                    i as int,
                ).to_multiset().add(vb.take(j as int).to_multiset()).insert(e@));
                if j < b.len() {
                    assert(entry_le(va[i as int], vb[j as int]));
                }
                if i + 1 < a.len() {
                    assert(entry_le(va[i as int], va[i + 1]));
                }
            } else {
                assert(e@ == vb[j as int]);
                assert(vb.take(j + 1) =~= vb.take(j as int).push(vb[j as int]));
                vstd::seq_lib::to_multiset_build(vb.take(j as int), vb[j as int]);
                assert(va.take(i as int).to_multiset().add(vb.take(j + 1).to_multiset()) =~= va.take(
                    i as int,
                ).to_multiset().add(vb.take(j as int).to_multiset()).insert(e@));
                if i < a.len() {
                    lemma_entry_le_facts(va[i as int], vb[j as int], vb[j as int]);
                }
                if j + 1 < b.len() {
                    assert(entry_le(vb[j as int], vb[j + 1]));
                }
            }
            let vn = vo.push(e@);
            assert forall|p: int, q: int| 0 <= p < q < vn.len() implies entry_le(
                #[trigger] vn[p],
                #[trigger] vn[q],
            ) by {
                if q == vn.len() - 1 && p < vo.len() {
                    lemma_entry_le_facts(vo[p], vo.last(), e@);
                    if p < vo.len() - 1 {
                        assert(entry_le(vo[p], vo[vo.len() - 1]));
                    }
                } else if q < vo.len() {
                    assert(vn[p] == vo[p] && vn[q] == vo[q]);
                }
            }
        }
        out.push(e);
        if take_a {
            i = i + 1;
        } else {
            j = j + 1;
        }
    }
    assert(va.take(a.len() as int) =~= va);
    assert(vb.take(b.len() as int) =~= vb);
    out
}

/// Entries in canonical order: the same entries, sorted by path, then
/// kind.
pub fn sort_entries(v: Vec<SnapshotEntry>) -> (r: Vec<SnapshotEntry>)
    ensures
        entries_sorted(entries_view(r@)),
        entries_view(r@).to_multiset() == entries_view(v@).to_multiset(),
        r.len() == v.len(),
    decreases v.len(),
{
    broadcast use vstd::seq_lib::group_to_multiset_ensures;

    if v.len() <= 1 {
        return v;
    }
    let ghost whole = v@;
    let mut left = v;
    let mid = left.len() / 2;
    let right = left.split_off(mid);
    assert(whole =~= left@ + right@);
    assert(entries_view(whole) =~= entries_view(left@) + entries_view(right@));
    proof {
        vstd::seq_lib::lemma_multiset_commutative(entries_view(left@), entries_view(right@));
    }
    let l = sort_entries(left);
    let r = sort_entries(right);
    merge_entries(l, r)
}

// ---------------------------------------------------------------------------
// Distinct paths
// ---------------------------------------------------------------------------

/// No path occurs twice.
pub open spec fn rels_distinct(es: Seq<EntryView>) -> bool {
    forall|i: int, j: int| 0 <= i < j < es.len() ==> (#[trigger] es[i]).rel != (#[trigger] es[j]).rel
}

/// Two held entries with one path are the same entry.
pub open spec fn rel_functional(es: Seq<EntryView>) -> bool {
    forall|x: EntryView, y: EntryView|
        #![trigger es.contains(x), es.contains(y)]
        es.contains(x) && es.contains(y) && x.rel == y.rel ==> x == y
}

proof fn lemma_distinct_split(es: Seq<EntryView>)
    ensures
        rels_distinct(es) <==> (es.no_duplicates() && rel_functional(es)),
{
    if rels_distinct(es) {
        assert forall|x: EntryView, y: EntryView|
            #![trigger es.contains(x), es.contains(y)]
            es.contains(x) && es.contains(y) && x.rel == y.rel implies x == y by {
            let i = choose|i: int| 0 <= i < es.len() && es[i] == x;
            let j = choose|j: int| 0 <= j < es.len() && es[j] == y;
            if i < j {
                assert(es[i].rel != es[j].rel);
            } else if j < i {
                assert(es[j].rel != es[i].rel);
            }
        }
    }
    if es.no_duplicates() && rel_functional(es) {
        assert forall|i: int, j: int| 0 <= i < j < es.len() implies (#[trigger] es[i]).rel != (
        #[trigger] es[j]).rel by {
            if es[i].rel == es[j].rel {
                assert(es.contains(es[i]) && es.contains(es[j]));
            }
        }
    }
}

/// Distinct paths are a property of the entries, not of their order.
pub proof fn lemma_distinct_perm(a: Seq<EntryView>, b: Seq<EntryView>)
    requires
        a.to_multiset() == b.to_multiset(),
    ensures
        rels_distinct(a) <==> rels_distinct(b),
{
    if rels_distinct(a) {
        lemma_distinct_perm_one(a, b);
    }
    if rels_distinct(b) {
        lemma_distinct_perm_one(b, a);
    }
}

proof fn lemma_distinct_perm_one(a: Seq<EntryView>, b: Seq<EntryView>)
    requires
        a.to_multiset() == b.to_multiset(),
        rels_distinct(a),
    ensures
        rels_distinct(b),
{
    broadcast use vstd::seq_lib::group_to_multiset_ensures;

    lemma_distinct_split(a);
    lemma_distinct_split(b);
    a.lemma_multiset_has_no_duplicates();
    b.lemma_multiset_has_no_duplicates_conv();
    assert forall|x: EntryView, y: EntryView|
        #![trigger b.contains(x), b.contains(y)]
        b.contains(x) && b.contains(y) && x.rel == y.rel implies x == y by {
        vstd::seq_lib::to_multiset_contains(a, x);
        vstd::seq_lib::to_multiset_contains(b, x);
        vstd::seq_lib::to_multiset_contains(a, y);
        vstd::seq_lib::to_multiset_contains(b, y);
    }
}

/// Neighbours `k` and `k + 1` differ in path.
pub open spec fn step_differs(es: Seq<EntryView>, k: int) -> bool {
    es[k].rel != es[k + 1].rel
}

proof fn lemma_chain(es: Seq<EntryView>, i: int, j: int)
    requires
        entries_sorted(es),
        forall|k: int| 0 <= k < es.len() - 1 ==> #[trigger] step_differs(es, k),
        0 <= i < j < es.len(),
    ensures
        chars_lt(es[i].rel, es[j].rel),
    decreases j - i,
{
    assert(entry_le(es[j - 1], es[j]));
    assert(step_differs(es, j - 1));
    if j - 1 > i {
        lemma_chain(es, i, j - 1);
        lemma_chars_order(es[i].rel, es[j - 1].rel, es[j].rel);
    }
}

/// Sorted entries whose neighbours differ in path are strictly
/// increasing by path.
proof fn lemma_sorted_adjacent(es: Seq<EntryView>)
    requires
        entries_sorted(es),
        forall|k: int| 0 <= k < es.len() - 1 ==> #[trigger] step_differs(es, k),
    ensures
        rels_increasing(es),
{
    assert forall|i: int, j: int| 0 <= i < j < es.len() implies chars_lt(
        #[trigger] es[i].rel,
        #[trigger] es[j].rel,
    ) by {
        lemma_chain(es, i, j);
    }
}

/// Strictly increasing paths means distinct paths.
proof fn lemma_increasing_distinct(es: Seq<EntryView>)
    requires
        rels_increasing(es),
    ensures
        rels_distinct(es),
{
    assert forall|i: int, j: int| 0 <= i < j < es.len() implies (#[trigger] es[i]).rel != (
    #[trigger] es[j]).rel by {
        lemma_chars_order(es[i].rel, es[j].rel, es[i].rel);
    }
}

/// Two orderings of the same entries that both increase strictly by
/// path are the same sequence.
pub proof fn lemma_increasing_unique(x: Seq<EntryView>, y: Seq<EntryView>)
    requires
        rels_increasing(x),
        rels_increasing(y),
        x.to_multiset() == y.to_multiset(),
    ensures
        x == y,
    decreases x.len(),
{
    broadcast use vstd::seq_lib::group_to_multiset_ensures;
    broadcast use vstd::multiset::group_multiset_axioms;

    if x.len() == 0 || y.len() == 0 {
        assert(x.to_multiset().len() == x.len());
        assert(y.to_multiset().len() == y.len());
        assert(x =~= y);
    } else {
        assert(x.to_multiset().contains(y[0]));
        assert(y.to_multiset().contains(x[0]));
        let i = choose|i: int| 0 <= i < x.len() && x[i] == y[0];
        let k = choose|k: int| 0 <= k < y.len() && y[k] == x[0];
        if i > 0 && k > 0 {
            assert(chars_lt(x[0].rel, x[i].rel));
            assert(chars_lt(y[0].rel, y[k].rel));
            lemma_chars_order(x[0].rel, y[0].rel, x[0].rel);
        }
        assert(x[0] == y[0]);
        assert(x.drop_first().to_multiset() =~= x.to_multiset().remove(x[0])) by {
            assert(x =~= seq![x[0]] + x.drop_first());
            vstd::seq_lib::lemma_multiset_commutative(seq![x[0]], x.drop_first());
        }
        assert(y.drop_first().to_multiset() =~= y.to_multiset().remove(y[0])) by {
            assert(y =~= seq![y[0]] + y.drop_first());
            vstd::seq_lib::lemma_multiset_commutative(seq![y[0]], y.drop_first());
        }
        assert(rels_increasing(x.drop_first())) by {
            assert forall|p: int, q: int| 0 <= p < q < x.drop_first().len() implies chars_lt(
                #[trigger] x.drop_first()[p].rel,
                #[trigger] x.drop_first()[q].rel,
            ) by {
                assert(x.drop_first()[p] == x[p + 1] && x.drop_first()[q] == x[q + 1]);
            }
        }
        assert(rels_increasing(y.drop_first())) by {
            assert forall|p: int, q: int| 0 <= p < q < y.drop_first().len() implies chars_lt(
                #[trigger] y.drop_first()[p].rel,
                #[trigger] y.drop_first()[q].rel,
            ) by {
                assert(y.drop_first()[p] == y[p + 1] && y.drop_first()[q] == y[q + 1]);
            }
        }
        lemma_increasing_unique(x.drop_first(), y.drop_first());
        assert(x =~= y) by {
            assert forall|p: int| 0 <= p < x.len() implies x[p] == y[p] by {
                if p > 0 {
                    assert(x[p] == x.drop_first()[p - 1]);
                    assert(y[p] == y.drop_first()[p - 1]);
                }
            }
        }
    }
}

fn adjacent_dup(v: &Vec<SnapshotEntry>) -> (r: Option<usize>)
    ensures
        match r {
            Some(q) => q + 1 < v.len() && entries_view(v@)[q as int].rel == entries_view(
                v@,
            )[q + 1].rel,
            None => forall|q: int|
                0 <= q < v.len() - 1 ==> #[trigger] step_differs(entries_view(v@), q),
        },
{
    let ghost sv = entries_view(v@);
    if v.len() < 2 {
        return None;
    }
    let mut k: usize = 0;
    while k + 1 < v.len()
        invariant
            sv == entries_view(v@),
            v.len() >= 2,
            k + 1 <= v.len(),
            forall|q: int| 0 <= q < k ==> #[trigger] step_differs(sv, q),
        decreases v.len() - k,
    {
        assert(sv[k as int] == v[k as int]@ && sv[k + 1] == v[k + 1]@);
        if crate::text::str_eq(v[k].rel.as_str(), v[k + 1].rel.as_str()) {
            return Some(k);
        }
        k = k + 1;
    }
    None
}

/// Sort entries and reject a repeated path.
fn canonical_entries(entries: Vec<SnapshotEntry>) -> (r: Result<Vec<SnapshotEntry>, String>)
    ensures
        match r {
            Ok(v) => rels_distinct(entries_view(entries@)) && rels_increasing(entries_view(v@))
                && entries_view(v@).to_multiset() == entries_view(entries@).to_multiset(),
            Err(m) => !rels_distinct(entries_view(entries@)) && exists|i: int|
                0 <= i < entries@.len() && m@ == "duplicate relpath "@ + debug_text(
                    #[trigger] entries_view(entries@)[i].rel,
                ),
        },
{
    broadcast use vstd::seq_lib::group_to_multiset_ensures;

    let ghost orig = entries_view(entries@);
    let sorted = sort_entries(entries);
    let ghost sv = entries_view(sorted@);
    proof {
        lemma_distinct_perm(orig, sv);
    }
    match adjacent_dup(&sorted) {
        Some(q) => {
            assert(!rels_distinct(sv)) by {
                assert(sv[q as int].rel == sv[q + 1].rel);
            }
            assert(sorted[q as int]@ == sv[q as int]);
            let m = cat2("duplicate relpath ", debug_quote(sorted[q].rel.as_str()).as_str());
            proof {
                assert(sv.contains(sv[q as int]));
                assert(sv.to_multiset().count(sv[q as int]) > 0);
                assert(orig.contains(sv[q as int]));
                let i = choose|i: int| 0 <= i < orig.len() && orig[i] == sv[q as int];
                assert(m@ == "duplicate relpath "@ + debug_text(orig[i].rel));
            }
            Err(m)
        },
        None => {
            proof {
                lemma_sorted_adjacent(sv);
                lemma_increasing_distinct(sv);
            }
            Ok(sorted)
        },
    }
}

// ---------------------------------------------------------------------------
// The manifest
// ---------------------------------------------------------------------------

/// The content hash of an entry region: SHA-256 of its UTF-8 bytes.
pub open spec fn body_hash_spec(es: Seq<EntryView>) -> Seq<u8> {
    spec_sha256(vstd::utf8::encode_utf8(entries_text_spec(es)))
}

/// Every entry can stand in a manifest.
pub open spec fn all_entries_ok(es: Seq<EntryView>) -> bool {
    forall|i: int| 0 <= i < es.len() ==> entry_ok(#[trigger] es[i])
}

/// A validated, canonically ordered manifest with its content hash.
#[derive(Debug, Clone, PartialEq, Eq)]
pub struct Manifest {
    pub entries: Vec<SnapshotEntry>,
    /// SHA-256 of the exact serialized entry bytes (no header).
    pub hash: ContentId,
    /// Hash of the lockfile the snapshot was built for, when known.
    pub lockfile_hash: Option<ContentId>,
    /// Total bytes of the distinct blobs the snapshot holds; 0 when
    /// unknown.
    pub total_size: u64,
}

/// A manifest as plain values.
pub struct ManifestView {
    pub entries: Seq<EntryView>,
    pub hash: Seq<u8>,
    pub lockfile_hash: Option<Seq<u8>>,
    pub total_size: u64,
}

impl View for Manifest {
    type V = ManifestView;

    open spec fn view(&self) -> ManifestView {
        ManifestView {
            entries: entries_view(self.entries@),
            hash: self.hash.0@,
            lockfile_hash: match self.lockfile_hash {
                Some(h) => Some(h.0@),
                None => None,
            },
            total_size: self.total_size,
        }
    }
}

/// A manifest as construction leaves it: valid entries in strictly
/// increasing path order, named by the hash of their serialization.
pub open spec fn manifest_wf(m: ManifestView) -> bool {
    &&& all_entries_ok(m.entries)
    &&& blobs_sized(m.entries)
    &&& rels_increasing(m.entries)
    &&& m.hash == body_hash_spec(m.entries)
    &&& m.hash.len() == 32
    &&& match m.lockfile_hash {
        Some(h) => h.len() == 32,
        None => true,
    }
}

impl Manifest {
    /// Build a manifest from entries in any order: validate every
    /// relpath and kind/ref pairing, sort by path then kind, reject a
    /// repeated path, and hash the canonical serialization.
    pub fn new(entries: Vec<SnapshotEntry>) -> (r: Result<Manifest, String>)
        ensures
            r is Ok <==> all_entries_ok(entries_view(entries@)) && rels_distinct(
                entries_view(entries@),
            ),
            match r {
                Ok(m) => manifest_wf(m@) && m@.entries.to_multiset() == entries_view(
                    entries@,
                ).to_multiset() && m.lockfile_hash is None && m.total_size == 0,
                Err(m) => new_error_ok(entries_view(entries@), m@),
            },
    {
        Self::new_with_lockfile_and_size(entries, None, 0)
    }

    /// [`Self::new`], recording the lockfile hash the snapshot was
    /// built for.
    pub fn new_with_lockfile(entries: Vec<SnapshotEntry>, lockfile_hash: Option<ContentId>) -> (r:
        Result<Manifest, String>)
        ensures
            r is Ok <==> all_entries_ok(entries_view(entries@)) && rels_distinct(
                entries_view(entries@),
            ),
            match r {
                Ok(m) => manifest_wf(m@) && m@.entries.to_multiset() == entries_view(
                    entries@,
                ).to_multiset() && m.lockfile_hash == lockfile_hash && m.total_size == 0,
                Err(m) => new_error_ok(entries_view(entries@), m@),
            },
    {
        Self::new_with_lockfile_and_size(entries, lockfile_hash, 0)
    }

    /// [`Self::new`], recording the lockfile hash and the total size
    /// of the distinct blobs.
    pub fn new_with_lockfile_and_size(
        entries: Vec<SnapshotEntry>,
        lockfile_hash: Option<ContentId>,
        total_size: u64,
    ) -> (r: Result<Manifest, String>)
        ensures
            r is Ok <==> all_entries_ok(entries_view(entries@)) && rels_distinct(
                entries_view(entries@),
            ),
            match r {
                Ok(m) => manifest_wf(m@) && m@.entries.to_multiset() == entries_view(
                    entries@,
                ).to_multiset() && m.lockfile_hash == lockfile_hash && m.total_size == total_size,
                Err(m) => new_error_ok(entries_view(entries@), m@),
            },
    {
        broadcast use vstd::seq_lib::group_to_multiset_ensures;

        let ghost ev = entries_view(entries@);
        for i in 0..entries.len()
            invariant
                ev == entries_view(entries@),
                forall|j: int| 0 <= j < i ==> entry_ok(#[trigger] ev[j]),
                forall|j: int| 0 <= j < i ==> entry_error(#[trigger] ev[j]) is None,
        {
            assert(ev[i as int] == entries[i as int]@);
            match check_entry(&entries[i]) {
                Ok(()) => {},
                Err(m) => {
                    proof {
                        lemma_first_entry_error_skip(ev, i as int);
                        assert(ev.skip(i as int)[0] == ev[i as int]);
                    }
                    return Err(m);
                },
            }
        }
        proof {
            lemma_first_entry_error_skip(ev, ev.len() as int);
            assert(ev.skip(ev.len() as int) =~= Seq::<EntryView>::empty());
        }
        let sorted = match canonical_entries(entries) {
            Ok(v) => v,
            Err(m) => {
                return Err(m);
            },
        };
        let ghost sv = entries_view(sorted@);
        assert(all_entries_ok(sv)) by {
            assert forall|i: int| 0 <= i < sv.len() implies entry_ok(#[trigger] sv[i]) by {
                assert(sv.to_multiset().contains(sv[i]));
                assert(ev.contains(sv[i]));
            }
        }
        assert(blobs_sized(sv)) by {
            assert forall|i: int| 0 <= i < sv.len() implies match (#[trigger] sv[i]).blob {
                Some(b) => b.len() == 32,
                None => true,
            } by {
                assert(sv[i] == sorted[i]@);
            }
        }
        let body = serialize_entries(&sorted);
        let digest = sha256(body.as_str().as_bytes());
        Ok(Manifest { entries: sorted, hash: ContentId(digest), lockfile_hash, total_size })
    }
}

/// Whether a list of entries is accepted for a manifest does not depend
/// on the order the entries come in.
pub proof fn lemma_new_accepts_any_order(a: Seq<EntryView>, b: Seq<EntryView>)
    requires
        a.to_multiset() == b.to_multiset(),
    ensures
        (all_entries_ok(a) && rels_distinct(a)) <==> (all_entries_ok(b) && rels_distinct(b)),
{
    lemma_distinct_perm(a, b);
    if all_entries_ok(a) {
        lemma_entries_ok_perm(a, b);
    }
    if all_entries_ok(b) {
        lemma_entries_ok_perm(b, a);
    }
}

proof fn lemma_entries_ok_perm(a: Seq<EntryView>, b: Seq<EntryView>)
    requires
        a.to_multiset() == b.to_multiset(),
        all_entries_ok(a),
    ensures
        all_entries_ok(b),
{
    broadcast use vstd::seq_lib::group_to_multiset_ensures;

    assert forall|i: int| 0 <= i < b.len() implies entry_ok(#[trigger] b[i]) by {
        assert(b.contains(b[i]));
        vstd::seq_lib::to_multiset_contains(b, b[i]);
        vstd::seq_lib::to_multiset_contains(a, b[i]);
        assert(a.contains(b[i]));
    }
}

/// A manifest does not depend on the order its entries were given in:
/// two manifests built from the same entries, with the same lockfile hash
/// and total size, are equal.
pub proof fn lemma_manifest_order_independent(ma: ManifestView, mb: ManifestView)
    requires
        manifest_wf(ma),
        manifest_wf(mb),
        ma.entries.to_multiset() == mb.entries.to_multiset(),
        ma.lockfile_hash == mb.lockfile_hash,
        ma.total_size == mb.total_size,
    ensures
        ma == mb,
{
    lemma_increasing_unique(ma.entries, mb.entries);
}

// ---------------------------------------------------------------------------
// Manifest text
// ---------------------------------------------------------------------------

pub open spec fn kw_manifest_sha256() -> Seq<char> {
    seq!['m', 'a', 'n', 'i', 'f', 'e', 's', 't', '-', 's', 'h', 'a', '2', '5', '6']
}

pub open spec fn kw_lockfile_sha256() -> Seq<char> {
    seq!['l', 'o', 'c', 'k', 'f', 'i', 'l', 'e', '-', 's', 'h', 'a', '2', '5', '6']
}

pub open spec fn kw_total_bytes() -> Seq<char> {
    seq!['t', 'o', 't', 'a', 'l', '-', 'b', 'y', 't', 'e', 's']
}

/// The header fields: the manifest hash, then the lockfile hash when
/// known, then the total size when not zero.
pub open spec fn header_fields_spec(
    hash: Seq<u8>,
    lockfile_hash: Option<Seq<u8>>,
    total_size: u64,
) -> Seq<Seq<char>> {
    let base = seq![kw_v1(), kw_manifest_sha256(), hex_spec(hash)];
    let with_lock = match lockfile_hash {
        Some(l) => base + seq![kw_lockfile_sha256(), hex_spec(l)],
        None => base,
    };
    if total_size > 0 {
        with_lock + seq![kw_total_bytes(), dec_spec(total_size as nat)]
    } else {
        with_lock
    }
}

/// The serialized manifest: header line, then the entry region.
pub open spec fn manifest_text_spec(m: ManifestView) -> Seq<char> {
    join_spec(header_fields_spec(m.hash, m.lockfile_hash, m.total_size), '\t').push('\n')
        + entries_text_spec(m.entries)
}

/// What a header line's fields say: the claimed hash, the lockfile
/// hash and the total size; `None` for anything else.
pub open spec fn header_parse_spec(f: Seq<Seq<char>>) -> Option<(Seq<u8>, Option<Seq<u8>>, u64)> {
    if f.len() < 3 || f[0] != kw_v1() || f[1] != kw_manifest_sha256() {
        None
    } else {
        match from_hex_spec(f[2]) {
            None => None,
            Some(h) => if f.len() == 3 {
                Some((h, None, 0))
            } else if f.len() == 5 && f[3] == kw_lockfile_sha256() {
                match from_hex_spec(f[4]) {
                    Some(l) => Some((h, Some(l), 0)),
                    None => None,
                }
            } else if f.len() == 5 && f[3] == kw_total_bytes() {
                match parse_u64_spec(f[4]) {
                    Some(t) => Some((h, None, t as u64)),
                    None => None,
                }
            } else if f.len() == 7 && f[3] == kw_lockfile_sha256() && f[5] == kw_total_bytes() {
                match (from_hex_spec(f[4]), parse_u64_spec(f[6])) {
                    (Some(l), Some(t)) => Some((h, Some(l), t as u64)),
                    _ => None,
                }
            } else {
                None
            },
        }
    }
}

/// What one entry line holds; `None` when the line is malformed, the
/// kind unknown, the mode not octal, an escape invalid, the relpath
/// not canonical, a file ref not a hex id, or a dir ref not `-`.
pub open spec fn parse_entry_spec(line: Seq<char>) -> Option<EntryView> {
    let f = split_spec(line, '\t');
    if f.len() != 5 || f[0] != kw_entry() {
        None
    } else {
        match (kind_parse_spec(f[2]), parse_uint_spec(f[3], 8, u32::MAX as nat), unescape_spec(f[1])) {
            (Some(kind), Some(mode), Some(rel)) => if !rel_ok(rel) {
                None
            } else {
                match kind {
                    EntryKind::File => match unescape_spec(f[4]) {
                        Some(hex) => match from_hex_spec(hex) {
                            Some(b) => Some(
                                EntryView { rel, kind, mode: mode as u32, blob: Some(b), target: None },
                            ),
                            None => None,
                        },
                        None => None,
                    },
                    EntryKind::Symlink => match unescape_spec(f[4]) {
                        Some(t) => Some(
                            EntryView { rel, kind, mode: mode as u32, blob: None, target: Some(t) },
                        ),
                        None => None,
                    },
                    EntryKind::Dir => if f[4] == seq!['-'] {
                        Some(EntryView { rel, kind, mode: mode as u32, blob: None, target: None })
                    } else {
                        None
                    },
                }
            },
            _ => None,
        }
    }
}

/// Entry lines parsed in order; `None` if any line is bad.
pub open spec fn parse_entries_spec(lines: Seq<Seq<char>>) -> Option<Seq<EntryView>>
    decreases lines.len(),
{
    if lines.len() == 0 {
        Some(Seq::empty())
    } else {
        match (parse_entries_spec(lines.drop_last()), parse_entry_spec(lines.last())) {
            (Some(es), Some(e)) => Some(es.push(e)),
            _ => None,
        }
    }
}

/// What manifest text holds before ordering: the claimed hash, the
/// lockfile hash, the total size, and the entries in file order. The
/// torn tail after the last newline is ignored; the header's hash must
/// equal the SHA-256 of the bytes between the header line and that
/// last newline (inclusive).
pub open spec fn manifest_parse_spec(text: Seq<char>) -> Option<
    (Seq<u8>, Option<Seq<u8>>, u64, Seq<EntryView>),
> {
    let end = last_index_spec(text, '\n');
    if end < 0 {
        None
    } else {
        let complete = text.take(end + 1);
        let header = split_spec(complete, '\n')[0];
        let body = complete.skip((header.len() + 1) as int);
        match header_parse_spec(split_spec(header, '\t')) {
            None => None,
            Some((h, l, t)) => if h != spec_sha256(vstd::utf8::encode_utf8(body)) {
                None
            } else {
                match parse_entries_spec(split_spec(body, '\n').filter(nonempty_fn())) {
                    Some(es) => Some((h, l, t, es)),
                    None => None,
                }
            },
        }
    }
}

fn kw_chars_manifest_sha256() -> (r: Vec<char>)
    ensures
        r@ == kw_manifest_sha256(),
{
    let r = vec!['m', 'a', 'n', 'i', 'f', 'e', 's', 't', '-', 's', 'h', 'a', '2', '5', '6'];
    assert(r@ =~= kw_manifest_sha256());
    r
}

fn kw_chars_lockfile_sha256() -> (r: Vec<char>)
    ensures
        r@ == kw_lockfile_sha256(),
{
    let r = vec!['l', 'o', 'c', 'k', 'f', 'i', 'l', 'e', '-', 's', 'h', 'a', '2', '5', '6'];
    assert(r@ =~= kw_lockfile_sha256());
    r
}

fn kw_chars_total_bytes() -> (r: Vec<char>)
    ensures
        r@ == kw_total_bytes(),
{
    let r = vec!['t', 'o', 't', 'a', 'l', '-', 'b', 'y', 't', 'e', 's'];
    assert(r@ =~= kw_total_bytes());
    r
}

fn parse_entry(line: &Vec<char>) -> (r: Result<SnapshotEntry, String>)
    ensures
        match r {
            Ok(e) => parse_entry_spec(line@) == Some(e@),
            Err(_) => parse_entry_spec(line@) is None,
        },
{
    let f = split_chars(line, '\t');
    let ghost fs = seqs_of(f@);
    if f.len() != 5 || !chars_eq(&f[0], &kw_chars_entry()) {
        return Err(cat2("malformed manifest entry line ", debug_quote(string_of(line).as_str()).as_str()));
    }
    assert(fs[1] == f[1]@ && fs[2] == f[2]@ && fs[3] == f[3]@ && fs[4] == f[4]@);
    let kind = match EntryKind::parse(&f[2]) {
        Some(k) => k,
        None => {
            return Err(cat2("unknown kind ", debug_quote(string_of(&f[2]).as_str()).as_str()));
        },
    };
    let mode = match parse_uint(&f[3], 8, u32::MAX as u64) {
        Some(m) => m as u32,
        None => {
            return Err(cat2("malformed octal mode ", debug_quote(string_of(&f[3]).as_str()).as_str()));
        },
    };
    let rel = match unescape_chars(&f[1]) {
        Ok(r) => string_of(&r),
        Err(e) => {
            return Err(e);
        },
    };
    match validate_rel(rel.as_str()) {
        Ok(()) => {},
        Err(e) => {
            return Err(e);
        },
    }
    match kind {
        EntryKind::File => {
            let hex = match unescape_chars(&f[4]) {
                Ok(h) => h,
                Err(e) => {
                    return Err(e);
                },
            };
            match ContentId::from_hex_chars(&hex) {
                Some(b) => Ok(SnapshotEntry { rel, kind, mode, blob: Some(b), target: None }),
                None => Err(cat2("file entry has non-hex ref ", debug_quote(string_of(&hex).as_str()).as_str())),
            }
        },
        EntryKind::Symlink => {
            match unescape_chars(&f[4]) {
                Ok(t) => Ok(
                    SnapshotEntry { rel, kind, mode, blob: None, target: Some(string_of(&t)) },
                ),
                Err(e) => Err(e),
            }
        },
        EntryKind::Dir => {
            let dash = vec!['-'];
            assert(dash@ =~= seq!['-']);
            if !chars_eq(&f[4], &dash) {
                return Err(cat3("dir entry ", debug_quote(rel.as_str()).as_str(), " has a non-dash ref"));
            }
            Ok(SnapshotEntry { rel, kind, mode, blob: None, target: None })
        },
    }
}

proof fn lemma_entries_none_extends(lines: Seq<Seq<char>>, i: int)
    requires
        0 <= i <= lines.len(),
        parse_entries_spec(lines.take(i)) is None,
    ensures
        parse_entries_spec(lines) is None,
    decreases lines.len() - i,
{
    if i < lines.len() {
        assert(lines.take(i + 1).drop_last() =~= lines.take(i));
        lemma_entries_none_extends(lines, i + 1);
    } else {
        assert(lines.take(i) =~= lines);
    }
}

fn parse_header(header: &Vec<char>) -> (r: Result<(ContentId, Option<ContentId>, u64), String>)
    ensures
        match r {
            Ok((h, l, t)) => header_parse_spec(split_spec(header@, '\t')) == Some(
                (
                    h.0@,
                    match l {
                        Some(x) => Some(x.0@),
                        None => None,
                    },
                    t,
                ),
            ),
            Err(_) => header_parse_spec(split_spec(header@, '\t')) is None,
        },
{
    let f = split_chars(header, '\t');
    let ghost fs = seqs_of(f@);
    if f.len() < 3 || !chars_eq(&f[0], &crate::mirror::kw_chars_v1()) || !chars_eq(
        &f[1],
        &kw_chars_manifest_sha256(),
    ) {
        return Err(cat2("bad manifest header ", debug_quote(string_of(header).as_str()).as_str()));
    }
    assert(fs[2] == f[2]@);
    let h = match ContentId::from_hex_chars(&f[2]) {
        Some(h) => h,
        None => {
            return Err(cat2("malformed manifest hash ", debug_quote(string_of(&f[2]).as_str()).as_str()));
        },
    };
    if f.len() == 3 {
        return Ok((h, None, 0));
    }
    if f.len() == 5 {
        assert(fs[3] == f[3]@ && fs[4] == f[4]@);
        if chars_eq(&f[3], &kw_chars_lockfile_sha256()) {
            return match ContentId::from_hex_chars(&f[4]) {
                Some(l) => Ok((h, Some(l), 0)),
                None => Err(cat2("malformed lockfile hash ", debug_quote(string_of(&f[4]).as_str()).as_str())),
            };
        }
        if chars_eq(&f[3], &kw_chars_total_bytes()) {
            return match parse_u64(&f[4]) {
                Some(t) => Ok((h, None, t)),
                None => Err(cat2("malformed total size ", debug_quote(string_of(&f[4]).as_str()).as_str())),
            };
        }
        return Err(cat2("bad manifest header ", debug_quote(string_of(header).as_str()).as_str()));
    }
    if f.len() == 7 {
        assert(fs[3] == f[3]@ && fs[4] == f[4]@ && fs[5] == f[5]@ && fs[6] == f[6]@);
        if chars_eq(&f[3], &kw_chars_lockfile_sha256()) && chars_eq(&f[5], &kw_chars_total_bytes()) {
            let l = match ContentId::from_hex_chars(&f[4]) {
                Some(l) => l,
                None => {
                    return Err(cat2("malformed lockfile hash ", debug_quote(string_of(&f[4]).as_str()).as_str()));
                },
            };
            return match parse_u64(&f[6]) {
                Some(t) => Ok((h, Some(l), t)),
                None => Err(cat2("malformed total size ", debug_quote(string_of(&f[6]).as_str()).as_str())),
            };
        }
    }
    Err(cat2("bad manifest header ", debug_quote(string_of(header).as_str()).as_str()))
}

impl Manifest {
    /// Header line plus entry lines; the header carries this
    /// manifest's hash, the lockfile hash when known and the total size
    /// when not zero.
    pub fn serialize(&self) -> (r: String)
        ensures
            r@ == manifest_text_spec(self@),
    {
        let mut fields: Vec<Vec<char>> = Vec::new();
        fields.push(crate::mirror::kw_chars_v1());
        fields.push(kw_chars_manifest_sha256());
        fields.push(self.hash.hex_chars());
        let ghost base = seq![kw_v1(), kw_manifest_sha256(), hex_spec(self.hash.0@)];
        assert(seqs_of(fields@) =~= base);
        match &self.lockfile_hash {
            Some(l) => {
                fields.push(kw_chars_lockfile_sha256());
                fields.push(l.hex_chars());
                assert(seqs_of(fields@) =~= base + seq![kw_lockfile_sha256(), hex_spec(l.0@)]);
            },
            None => {},
        }
        let ghost with_lock = seqs_of(fields@);
        if self.total_size > 0 {
            fields.push(kw_chars_total_bytes());
            fields.push(dec_chars(self.total_size));
            assert(seqs_of(fields@) =~= with_lock + seq![
                kw_total_bytes(),
                dec_spec(self.total_size as nat),
            ]);
        }
        assert(seqs_of(fields@) == header_fields_spec(
            self@.hash,
            self@.lockfile_hash,
            self@.total_size,
        ));
        let mut out = tab_line(&fields);
        out.push('\n');
        let body = serialize_entries(&self.entries);
        let bv = chars_of(body.as_str());
        extend_chars(&mut out, &bv);
        string_of(&out)
    }

    /// Parse manifest text and check its header hash against the exact
    /// bytes that follow the header. The entries come back in canonical
    /// order; a repeated path is rejected.
    pub fn parse(text: &str) -> (r: Result<Manifest, String>)
        ensures
            match r {
                Ok(m) => match manifest_parse_spec(text@) {
                    Some((h, l, t, es)) => rels_distinct(es) && m@.hash == h && m@.lockfile_hash
                        == l && m@.total_size == t && m@.entries.to_multiset() == es.to_multiset()
                        && rels_increasing(m@.entries),
                    None => false,
                },
                Err(_) => match manifest_parse_spec(text@) {
                    Some((h, l, t, es)) => !rels_distinct(es),
                    None => true,
                },
            },
    {
        let v = chars_of(text);
        proof {
            lemma_last_index(v@, '\n');
        }
        let end = match rfind_char(&v, '\n') {
            Some(e) => e,
            None => {
                return Err(text_message("manifest has no complete header line"));
            },
        };
        let complete = slice_chars(&v, 0, end + 1);
        assert(complete@ =~= text@.take(end + 1));
        assert(complete@.contains('\n')) by {
            assert(complete@[end as int] == '\n');
        }
        proof {
            lemma_split_first(complete@, '\n');
        }
        let pieces = split_chars(&complete, '\n');
        assert(seqs_of(pieces@)[0] == pieces[0]@);
        let hlen = pieces[0].len();
        let header = slice_chars(&complete, 0, hlen);
        assert(header@ =~= pieces[0]@);
        let body = slice_chars(&complete, hlen + 1, complete.len());
        assert(body@ =~= complete@.skip(hlen + 1));
        let (claimed, lockfile_hash, total_size) = match parse_header(&header) {
            Ok(x) => x,
            Err(e) => {
                return Err(e);
            },
        };
        let body_text = string_of(&body);
        let actual = ContentId(sha256(body_text.as_str().as_bytes()));
        if claimed != actual {
            return Err(cat4(
                "manifest hash mismatch: header says ",
                claimed.to_string().as_str(),
                ", body hashes to ",
                actual.to_string().as_str(),
            ));
        }
        let lines = split_chars(&body, '\n');
        let ghost ls = seqs_of(lines@);
        let ghost nl = ls.filter(nonempty_fn());
        let ghost lv = match lockfile_hash {
            Some(x) => Some(x.0@),
            None => None,
        };
        assert(ls == split_spec(body@, '\n'));
        assert(manifest_parse_spec(text@) == match parse_entries_spec(nl) {
            Some(es) => Some((claimed.0@, lv, total_size, es)),
            None => None,
        });
        let mut entries: Vec<SnapshotEntry> = Vec::new();
        let mut kept: Vec<Vec<char>> = Vec::new();
        for i in 0..lines.len()
            invariant
                ls == seqs_of(lines@),
                nl == ls.filter(nonempty_fn()),
                manifest_parse_spec(text@) == match parse_entries_spec(nl) {
                    Some(es) => Some((claimed.0@, lv, total_size, es)),
                    None => None,
                },
                seqs_of(kept@) == ls.take(i as int).filter(nonempty_fn()),
                parse_entries_spec(seqs_of(kept@)) == Some(entries_view(entries@)),
        {
            proof {
                ls.take(i as int).lemma_filter_push(ls[i as int], nonempty_fn());
                assert(ls.take(i as int).push(ls[i as int]) =~= ls.take(i + 1));
            }
            assert(ls[i as int] == lines[i as int]@);
            if lines[i].len() > 0 {
                let ghost before = seqs_of(kept@);
                match parse_entry(&lines[i]) {
                    Ok(e) => {
                        let ghost ev = entries_view(entries@);
                        kept.push(lines[i].clone());
                        entries.push(e);
                        assert(seqs_of(kept@) =~= before.push(ls[i as int]));
                        assert(seqs_of(kept@).drop_last() =~= before);
                        assert(entries_view(entries@) =~= ev.push(e@));
                    },
                    Err(m) => {
                        proof {
                            let after = before.push(ls[i as int]);
                            assert(after.drop_last() =~= before);
                            ls.lemma_filter_push(ls[i as int], nonempty_fn());
                            lemma_filter_prefix_take(ls, i + 1);
                            assert(after == nl.take(after.len() as int));
                            lemma_entries_none_extends(nl, after.len() as int);
                        }
                        return Err(m);
                    },
                }
            }
        }
        assert(ls.take(lines.len() as int) =~= ls);
        let ghost es = entries_view(entries@);
        match canonical_entries(entries) {
            Ok(sorted) => Ok(Manifest { entries: sorted, hash: claimed, lockfile_hash, total_size }),
            Err(m) => Err(m),
        }
    }
}

/// Filtering a prefix gives a prefix of the filtered sequence.
proof fn lemma_filter_prefix_take(ls: Seq<Seq<char>>, n: int)
    requires
        0 <= n <= ls.len(),
    ensures
        ls.take(n).filter(nonempty_fn()) == ls.filter(nonempty_fn()).take(
            ls.take(n).filter(nonempty_fn()).len() as int,
        ),
        ls.take(n).filter(nonempty_fn()).len() <= ls.filter(nonempty_fn()).len(),
    decreases ls.len() - n,
{
    if n == ls.len() {
        assert(ls.take(n) =~= ls);
        assert(ls.filter(nonempty_fn()).take(ls.filter(nonempty_fn()).len() as int) =~= ls.filter(
            nonempty_fn(),
        ));
    } else {
        lemma_filter_prefix_take(ls, n + 1);
        ls.take(n).lemma_filter_push(ls[n], nonempty_fn());
        assert(ls.take(n).push(ls[n]) =~= ls.take(n + 1));
        let a = ls.take(n).filter(nonempty_fn());
        let b = ls.take(n + 1).filter(nonempty_fn());
        let all = ls.filter(nonempty_fn());
        if ls[n].len() > 0 {
            assert(b == a.push(ls[n]));
            assert(a =~= all.take(b.len() as int).take(a.len() as int));
        } else {
            assert(b == a);
        }
    }
}

// ---------------------------------------------------------------------------
// Round trip
// ---------------------------------------------------------------------------

/// Every file entry refers to a 32-byte blob id.
pub open spec fn blobs_sized(es: Seq<EntryView>) -> bool {
    forall|i: int|
        0 <= i < es.len() ==> match (#[trigger] es[i]).blob {
            Some(b) => b.len() == 32,
            None => true,
        }
}

pub open spec fn entry_line_fn() -> spec_fn(EntryView) -> Seq<char> {
    |e: EntryView| entry_line_spec(e)
}

proof fn lemma_entries_text_terminated(es: Seq<EntryView>)
    ensures
        entries_text_spec(es) == terminated_spec(es.map_values(entry_line_fn())),
    decreases es.len(),
{
    if es.len() > 0 {
        lemma_entries_text_terminated(es.drop_last());
        assert(es.drop_last().map_values(entry_line_fn()) =~= es.map_values(
            entry_line_fn(),
        ).drop_last());
    } else {
        assert(es.map_values(entry_line_fn()) =~= Seq::<Seq<char>>::empty());
    }
}

proof fn lemma_kind_words()
    ensures
        forall|k: EntryKind| #[trigger] kind_parse_spec(kind_text(k)) == Some(k),
        forall|k: EntryKind| plain_word(#[trigger] kind_text(k)),
{
    assert(kind_text(EntryKind::File).len() != kind_text(EntryKind::Symlink).len());
    assert(kind_text(EntryKind::File).len() != kind_text(EntryKind::Dir).len());
    assert(kind_text(EntryKind::Symlink).len() != kind_text(EntryKind::Dir).len());
    assert forall|k: EntryKind| plain_word(#[trigger] kind_text(k)) by {
        let w = kind_text(k);
        assert forall|i: int| 0 <= i < w.len() implies ('a' <= #[trigger] w[i] <= 'z' || '0'
            <= w[i] <= '9' || w[i] == '-') by {}
    }
}

proof fn lemma_entry_fields_plain(e: EntryView)
    requires
        entry_ok(e),
        match e.blob {
            Some(b) => b.len() == 32,
            None => true,
        },
    ensures
        pieces_free_of(
            seq![kw_entry(), escape_spec(e.rel), kind_text(e.kind), fmt_uint_spec(e.mode as nat, 8), ref_text(e)],
            '\t',
        ),
        pieces_free_of(
            seq![kw_entry(), escape_spec(e.rel), kind_text(e.kind), fmt_uint_spec(e.mode as nat, 8), ref_text(e)],
            '\n',
        ),
{
    lemma_kind_words();
    lemma_plain_word_free(kind_text(e.kind));
    assert(plain_word(kw_entry()));
    lemma_plain_word_free(kw_entry());
    lemma_escape_framing_free(e.rel);
    lemma_fmt_uint(e.mode as nat, 8);
    lemma_digits_plain(fmt_uint_spec(e.mode as nat, 8), 8);
    lemma_ref_plain(e);
}

proof fn lemma_ref_plain(e: EntryView)
    requires
        entry_ok(e),
        match e.blob {
            Some(b) => b.len() == 32,
            None => true,
        },
    ensures
        !ref_text(e).contains('\t'),
        !ref_text(e).contains('\n'),
        match e.kind {
            EntryKind::File => match unescape_spec(ref_text(e)) {
                Some(hex) => from_hex_spec(hex) == e.blob,
                None => false,
            },
            EntryKind::Symlink => unescape_spec(ref_text(e)) == e.target,
            EntryKind::Dir => ref_text(e) == seq!['-'],
        },
{
    match e.blob {
        Some(b) => {
            lemma_hex_round_trip(b);
            lemma_digits_plain(hex_spec(b), 16);
            lemma_escape_plain(hex_spec(b));
            lemma_unescape_escape(hex_spec(b));
        },
        None => match e.target {
            Some(t) => {
                lemma_escape_framing_free(t);
                lemma_unescape_escape(t);
            },
            None => {
                assert(!seq!['-'].contains('\t') && !seq!['-'].contains('\n')) by {
                    if seq!['-'].contains('\t') || seq!['-'].contains('\n') {
                        let k = choose|k: int|
                            0 <= k < 1 && (seq!['-'][k] == '\t' || seq!['-'][k] == '\n');
                    }
                }
            },
        },
    }
}

/// An entry line parses back to its entry.
pub proof fn lemma_entry_round_trip(e: EntryView)
    requires
        entry_ok(e),
        match e.blob {
            Some(b) => b.len() == 32,
            None => true,
        },
    ensures
        parse_entry_spec(entry_line_spec(e)) == Some(e),
        !entry_line_spec(e).contains('\n'),
        entry_line_spec(e).len() > 0,
{
    let f = seq![kw_entry(), escape_spec(e.rel), kind_text(e.kind), fmt_uint_spec(e.mode as nat, 8), ref_text(e)];
    lemma_entry_fields_plain(e);
    lemma_ref_plain(e);
    lemma_kind_words();
    lemma_unescape_escape(e.rel);
    lemma_parse_fmt(e.mode as nat, 8, u32::MAX as nat);
    lemma_split_join(f, '\t');
    lemma_join_free(f, '\t', '\n');
    assert(entry_line_spec(e) == join_spec(f.drop_last(), '\t').push('\t') + f.last());
}

proof fn lemma_parse_entries_all(es: Seq<EntryView>)
    requires
        all_entries_ok(es),
        blobs_sized(es),
    ensures
        parse_entries_spec(es.map_values(entry_line_fn())) == Some(es),
    decreases es.len(),
{
    let ls = es.map_values(entry_line_fn());
    if es.len() == 0 {
        assert(ls =~= Seq::<Seq<char>>::empty());
        assert(Seq::<EntryView>::empty() =~= es);
    } else {
        let init = es.drop_last();
        assert(all_entries_ok(init)) by {
            assert forall|i: int| 0 <= i < init.len() implies entry_ok(#[trigger] init[i]) by {
                assert(init[i] == es[i]);
            }
        }
        assert(blobs_sized(init)) by {
            assert forall|i: int| 0 <= i < init.len() implies match (#[trigger] init[i]).blob {
                Some(b) => b.len() == 32,
                None => true,
            } by {
                assert(init[i] == es[i]);
            }
        }
        lemma_parse_entries_all(init);
        assert(ls.drop_last() =~= init.map_values(entry_line_fn()));
        assert(es[es.len() - 1] == es.last());
        lemma_entry_round_trip(es.last());
        assert(init.push(es.last()) =~= es);
    }
}

proof fn lemma_split_filter_terminated(lines: Seq<Seq<char>>)
    requires
        pieces_free_of(lines, '\n'),
        forall|i: int| 0 <= i < lines.len() ==> (#[trigger] lines[i]).len() > 0,
    ensures
        split_spec(terminated_spec(lines), '\n').filter(nonempty_fn()) == lines,
{
    broadcast use vstd::seq_lib::group_filter_ensures;

    if lines.len() == 0 {
        assert(terminated_spec(lines) =~= Seq::<char>::empty());
        let p = split_spec(Seq::<char>::empty(), '\n');
        assert(p =~= seq![Seq::<char>::empty()]);
        Seq::<Seq<char>>::empty().lemma_filter_push(Seq::<char>::empty(), nonempty_fn());
        assert(Seq::<Seq<char>>::empty().push(Seq::<char>::empty()) =~= p);
        assert(Seq::<Seq<char>>::empty().filter(nonempty_fn()).len() == 0);
        assert(p.filter(nonempty_fn()) =~= lines);
    } else {
        lemma_terminated_join(lines);
        lemma_terminated_body(lines);
        let j = join_spec(lines, '\n');
        let t = j.push('\n');
        assert(t.drop_last() =~= j);
        lemma_split_nonempty(j, '\n');
        assert(split_spec(t, '\n') == split_spec(j, '\n').push(Seq::<char>::empty()));
        lines.lemma_filter_push(Seq::<char>::empty(), nonempty_fn());
        lemma_filter_all_nonempty(lines);
    }
}

proof fn lemma_header_keywords()
    ensures
        !kw_manifest_sha256().contains('\t'),
        !kw_manifest_sha256().contains('\n'),
        !kw_lockfile_sha256().contains('\t'),
        !kw_lockfile_sha256().contains('\n'),
        !kw_total_bytes().contains('\t'),
        !kw_total_bytes().contains('\n'),
        !kw_v1().contains('\t'),
        !kw_v1().contains('\n'),
        kw_lockfile_sha256() != kw_total_bytes(),
{
    lemma_keywords_plain();
    assert(plain_word(kw_manifest_sha256()));
    assert(plain_word(kw_lockfile_sha256()));
    assert(plain_word(kw_total_bytes()));
    lemma_plain_word_free(kw_manifest_sha256());
    lemma_plain_word_free(kw_lockfile_sha256());
    lemma_plain_word_free(kw_total_bytes());
    assert(kw_lockfile_sha256().len() != kw_total_bytes().len());
}

proof fn lemma_header_fields_plain(hash: Seq<u8>, lockfile_hash: Option<Seq<u8>>, total_size: u64)
    requires
        hash.len() == 32,
        match lockfile_hash {
            Some(l) => l.len() == 32,
            None => true,
        },
    ensures
        pieces_free_of(header_fields_spec(hash, lockfile_hash, total_size), '\t'),
        pieces_free_of(header_fields_spec(hash, lockfile_hash, total_size), '\n'),
        header_fields_spec(hash, lockfile_hash, total_size).len() >= 3,
{
    lemma_header_keywords();
    lemma_hex_round_trip(hash);
    lemma_digits_plain(hex_spec(hash), 16);
    match lockfile_hash {
        Some(l) => {
            lemma_hex_round_trip(l);
            lemma_digits_plain(hex_spec(l), 16);
        },
        None => {},
    }
    lemma_fmt_uint(total_size as nat, 10);
    lemma_digits_plain(dec_spec(total_size as nat), 10);
}

/// The header line reads back as the hash, lockfile hash and size it
/// was written with.
#[verifier::spinoff_prover]
#[verifier::rlimit(40)]
proof fn lemma_header_round_trip(hash: Seq<u8>, lockfile_hash: Option<Seq<u8>>, total_size: u64)
    requires
        hash.len() == 32,
        match lockfile_hash {
            Some(l) => l.len() == 32,
            None => true,
        },
    ensures
        header_parse_spec(
            split_spec(join_spec(header_fields_spec(hash, lockfile_hash, total_size), '\t'), '\t'),
        ) == Some((hash, lockfile_hash, total_size)),
        !join_spec(header_fields_spec(hash, lockfile_hash, total_size), '\t').contains('\n'),
{
    let f = header_fields_spec(hash, lockfile_hash, total_size);
    lemma_header_fields_plain(hash, lockfile_hash, total_size);
    lemma_split_join(f, '\t');
    lemma_join_free(f, '\t', '\n');
    lemma_header_keywords();
    lemma_hex_round_trip(hash);
    match lockfile_hash {
        Some(l) => {
            lemma_hex_round_trip(l);
        },
        None => {},
    }
    lemma_parse_fmt(total_size as nat, 10, u64::MAX as nat);
}

proof fn lemma_text_frame(h: Seq<char>, b: Seq<char>)
    requires
        !h.contains('\n'),
        b.len() == 0 || b.last() == '\n',
    ensures
        last_index_spec(h.push('\n') + b, '\n') == (h.push('\n') + b).len() - 1,
        (h.push('\n') + b).take((h.push('\n') + b).len() as int) == h.push('\n') + b,
        split_spec(h.push('\n') + b, '\n')[0] == h,
        (h.push('\n') + b).skip((h.len() + 1) as int) == b,
{
    let text = h.push('\n') + b;
    assert(text.last() == '\n');
    assert(text.take(text.len() as int) =~= text);
    assert(text[h.len() as int] == '\n');
    assert(text.contains('\n'));
    lemma_split_first(text, '\n');
    let first = split_spec(text, '\n')[0];
    assert(first.len() == h.len()) by {
        if first.len() < h.len() {
            assert(h[first.len() as int] == text[first.len() as int]);
            assert(h.contains('\n'));
        } else if first.len() > h.len() {
            assert(text.take(first.len() as int)[h.len() as int] == '\n');
            assert(first.contains('\n'));
        }
    }
    assert(first =~= h);
    assert(text.skip((h.len() + 1) as int) =~= b);
}

proof fn lemma_entries_text_shape(es: Seq<EntryView>)
    requires
        all_entries_ok(es),
        blobs_sized(es),
    ensures
        entries_text_spec(es).len() == 0 || entries_text_spec(es).last() == '\n',
        split_spec(entries_text_spec(es), '\n').filter(nonempty_fn()) == es.map_values(
            entry_line_fn(),
        ),
        parse_entries_spec(es.map_values(entry_line_fn())) == Some(es),
{
    let lines = es.map_values(entry_line_fn());
    assert forall|i: int| 0 <= i < lines.len() implies !(#[trigger] lines[i]).contains('\n') && lines[i].len()
        > 0 by {
        assert(es[i].blob matches Some(x) ==> x.len() == 32);
        lemma_entry_round_trip(es[i]);
    }
    lemma_entries_text_terminated(es);
    lemma_split_filter_terminated(lines);
    lemma_parse_entries_all(es);
    if es.len() > 0 {
        assert(entries_text_spec(es).last() == '\n');
    }
}

/// Round trip: the text of a well-formed manifest reads back as that
/// manifest's hash, lockfile hash, total size and entries.
pub proof fn lemma_manifest_round_trip(m: ManifestView)
    requires
        manifest_wf(m),
    ensures
        manifest_parse_spec(manifest_text_spec(m)) == Some(
            (m.hash, m.lockfile_hash, m.total_size, m.entries),
        ),
{
    let h = join_spec(header_fields_spec(m.hash, m.lockfile_hash, m.total_size), '\t');
    let b = entries_text_spec(m.entries);
    lemma_header_round_trip(m.hash, m.lockfile_hash, m.total_size);
    lemma_entries_text_shape(m.entries);
    lemma_text_frame(h, b);
}

/// A manifest as construction leaves it reads back from its own text:
/// the parse accepts it (its paths are distinct), and any manifest
/// carrying what the parse yields, entries in increasing path order, is
/// that manifest.
pub proof fn lemma_manifest_reads_back(m: ManifestView, p: ManifestView)
    requires
        manifest_wf(m),
        p.hash == m.hash,
        p.lockfile_hash == m.lockfile_hash,
        p.total_size == m.total_size,
        p.entries.to_multiset() == m.entries.to_multiset(),
        rels_increasing(p.entries),
    ensures
        manifest_parse_spec(manifest_text_spec(m)) == Some(
            (m.hash, m.lockfile_hash, m.total_size, m.entries),
        ),
        rels_distinct(m.entries),
        p == m,
{
    lemma_manifest_round_trip(m);
    lemma_increasing_distinct(m.entries);
    lemma_increasing_unique(p.entries, m.entries);
}

// ---------------------------------------------------------------------------
// Where a snapshot lives, and when it counts as published
// ---------------------------------------------------------------------------

/// `<root>/snapshots/<hash>`.
pub open spec fn snapshot_path_spec(root: Seq<char>, hash: Seq<u8>) -> Seq<char> {
    crate::paths::path_join(crate::paths::path_join(root, "snapshots"@), hex_spec(hash))
}

/// Final directory of one published snapshot: `<root>/snapshots/<hash>`.
pub fn snapshot_path(root: &str, hash: &ContentId) -> (r: String)
    ensures
        r@ == snapshot_path_spec(root@, hash.0@),
{
    let dir = crate::paths::join_path(root, "snapshots");
    let p = crate::paths::join_chars_path(&chars_of(dir.as_str()), &hash.hex_chars());
    string_of(&p)
}

/// The clonable hydrated tree inside a published snapshot:
/// `<root>/snapshots/<hash>/tree`.
pub fn snapshot_tree_path(root: &str, hash: &ContentId) -> (r: String)
    ensures
        r@ == crate::paths::path_join(snapshot_path_spec(root@, hash.0@), "tree"@),
{
    let base = snapshot_path(root, hash);
    crate::paths::join_path(base.as_str(), "tree")
}

/// `s` without its trailing newlines.
pub open spec fn trim_newlines_spec(s: Seq<char>) -> Seq<char>
    decreases s.len(),
{
    if s.len() > 0 && s.last() == '\n' {
        trim_newlines_spec(s.drop_last())
    } else {
        s
    }
}

/// The `.complete` marker of a snapshot: `v1\t<hash>\n`.
pub open spec fn complete_marker_spec(hash: Seq<u8>) -> Seq<char> {
    join_spec(seq![kw_v1(), hex_spec(hash)], '\t').push('\n')
}

/// A `.complete` marker vouches for `hash`: after trailing newlines are
/// dropped it is exactly the fields `v1` and the hash's hex.
pub open spec fn complete_marker_ok_spec(text: Seq<char>, hash: Seq<u8>) -> bool {
    let parts = split_spec(trim_newlines_spec(text), '\t');
    parts.len() == 2 && parts[0] == kw_v1() && parts[1] == hex_spec(hash)
}

/// The `.complete` marker written beside a published manifest.
pub fn complete_marker(hash: &ContentId) -> (r: String)
    ensures
        r@ == complete_marker_spec(hash.0@),
{
    let mut fields: Vec<Vec<char>> = Vec::new();
    fields.push(crate::mirror::kw_chars_v1());
    fields.push(hash.hex_chars());
    assert(seqs_of(fields@) =~= seq![kw_v1(), hex_spec(hash.0@)]);
    let mut line = tab_line(&fields);
    line.push('\n');
    string_of(&line)
}

/// Whether a `.complete` marker vouches for `hash`.
pub fn complete_marker_ok(text: &str, hash: &ContentId) -> (r: bool)
    ensures
        r == complete_marker_ok_spec(text@, hash.0@),
{
    let mut v = chars_of(text);
    while v.len() > 0 && v[v.len() - 1] == '\n'
        invariant
            trim_newlines_spec(v@) == trim_newlines_spec(text@),
        decreases v.len(),
    {
        v.pop();
    }
    let parts = split_chars(&v, '\t');
    let ghost ps = seqs_of(parts@);
    if parts.len() != 2 {
        return false;
    }
    assert(ps[0] == parts[0]@ && ps[1] == parts[1]@);
    chars_eq(&parts[0], &crate::mirror::kw_chars_v1()) && chars_eq(&parts[1], &hash.hex_chars())
}

/// A freshly written marker vouches for its hash.
pub proof fn lemma_complete_marker_round_trip(hash: Seq<u8>)
    requires
        hash.len() == 32,
    ensures
        complete_marker_ok_spec(complete_marker_spec(hash), hash),
{
    let f = seq![kw_v1(), hex_spec(hash)];
    lemma_keywords_plain();
    lemma_hex_round_trip(hash);
    lemma_digits_plain(hex_spec(hash), 16);
    assert(pieces_free_of(f, '\t'));
    assert(pieces_free_of(f, '\n'));
    lemma_split_join(f, '\t');
    lemma_join_free(f, '\t', '\n');
    let j = join_spec(f, '\t');
    assert(j.push('\n').drop_last() =~= j);
    assert(j == join_spec(f.drop_last(), '\t').push('\t') + f.last());
    assert(j.last() == hex_spec(hash).last());
    assert(hex_spec(hash).contains(hex_spec(hash).last())) by {
        assert(hex_spec(hash)[hex_spec(hash).len() - 1] == hex_spec(hash).last());
    }
    assert(trim_newlines_spec(j) == j);
}

/// The shared validity check of a published snapshot, given what its
/// directory holds: the manifest must parse and carry `hash`, and the
/// `.complete` marker must be present and vouch for `hash`. `None`
/// means the snapshot is not usable.
pub fn validate_published(
    hash: &ContentId,
    manifest_text: &str,
    complete_text: Option<&str>,
) -> (r: Option<Manifest>)
    ensures
        match r {
            Some(m) => m.hash.0@ == hash.0@ && match complete_text {
                Some(c) => complete_marker_ok_spec(c@, hash.0@),
                None => false,
            } && match manifest_parse_spec(manifest_text@) {
                Some((h, l, t, es)) => rels_distinct(es) && m@.hash == h && m@.lockfile_hash == l
                    && m@.total_size == t && m@.entries.to_multiset() == es.to_multiset()
                    && rels_increasing(m@.entries),
                None => false,
            },
            None => match manifest_parse_spec(manifest_text@) {
                Some((h, l, t, es)) => !rels_distinct(es) || h != hash.0@ || match complete_text {
                    Some(c) => !complete_marker_ok_spec(c@, hash.0@),
                    None => true,
                },
                None => true,
            },
        },
{
    let m = match Manifest::parse(manifest_text) {
        Ok(m) => m,
        Err(_) => {
            return None;
        },
    };
    if m.hash != *hash {
        return None;
    }
    match complete_text {
        Some(c) => {
            if complete_marker_ok(c, hash) {
                Some(m)
            } else {
                None
            }
        },
        None => None,
    }
}

} // verus!
