//! The hydration sidecar `wt-hydrated.tsv` in a worktree's git dir:
//! one row per placed file, `<rel>\tblob\t<hex id>`, and one row per
//! snapshot the worktree was hydrated from, `-\tsnapshot\t<hex id>`.
//! Readers also accept the legacy two-column rows `<rel>\t<hex id>`,
//! which nothing writes any more.

use vstd::prelude::*;

use crate::idset::IdSet;
use crate::mirror::{kw_chars_file, kw_file, kw_snapshot, kw_chars_snapshot, lemma_keywords_plain, push_line, tab_line, terminated_spec};
use crate::text::{
    chars_eq, chars_of, digit_value, join_spec, lemma_split_join, lines_of, lines_spec,
    pieces_free_of, seqs_of, split_chars, split_spec, string_of, strip_cr, strip_cr_fn,
};
use crate::{from_hex_spec, hex_spec, lemma_hex_round_trip, ContentId};

verus! {

pub open spec fn kw_blob() -> Seq<char> {
    seq!['b', 'l', 'o', 'b']
}

/// The row recording one placed file.
pub open spec fn blob_row(rel: Seq<char>, id: Seq<u8>) -> Seq<char> {
    join_spec(seq![rel, kw_blob(), hex_spec(id)], '\t')
}

/// The row recording a snapshot hydration.
pub open spec fn snapshot_row(id: Seq<u8>) -> Seq<char> {
    join_spec(seq![seq!['-'], kw_snapshot(), hex_spec(id)], '\t')
}

pub open spec fn file_pairs_view(files: Seq<(String, ContentId)>) -> Seq<(Seq<char>, Seq<u8>)> {
    files.map_values(|p: (String, ContentId)| (p.0@, p.1.0@))
}

pub open spec fn blob_rows(files: Seq<(Seq<char>, Seq<u8>)>) -> Seq<Seq<char>> {
    files.map_values(|p: (Seq<char>, Seq<u8>)| blob_row(p.0, p.1))
}

/// The rows a hydration appends: one per file, in order, then the
/// snapshot row if there is one.
pub open spec fn sidecar_rows(files: Seq<(Seq<char>, Seq<u8>)>, snapshot: Option<Seq<u8>>) -> Seq<Seq<char>> {
    match snapshot {
        Some(h) => blob_rows(files).push(snapshot_row(h)),
        None => blob_rows(files),
    }
}

/// What one row records: `(true, id)` for a snapshot, `(false, id)`
/// for a blob; `None` for anything else, empty rows included.
pub open spec fn sidecar_line(line: Seq<char>) -> Option<(bool, Seq<u8>)> {
    let f = split_spec(line, '\t');
    if f.len() == 2 {
        match from_hex_spec(f[1]) {
            Some(b) => Some((false, b)),
            None => None,
        }
    } else if f.len() == 3 && f[1] == kw_blob() {
        match from_hex_spec(f[2]) {
            Some(b) => Some((false, b)),
            None => None,
        }
    } else if f.len() == 3 && f[1] == kw_snapshot() {
        match from_hex_spec(f[2]) {
            Some(b) => Some((true, b)),
            None => None,
        }
    } else {
        None
    }
}

/// The ids of the rows of one kind (`snap` picks snapshots) among `lines`.
pub open spec fn sidecar_ids(lines: Seq<Seq<char>>, snap: bool) -> Set<Seq<u8>>
    decreases lines.len(),
{
    if lines.len() == 0 {
        Set::empty()
    } else {
        let rest = sidecar_ids(lines.drop_last(), snap);
        match sidecar_line(lines.last()) {
            Some((s, b)) => if s == snap {
                rest.insert(b)
            } else {
                rest
            },
            None => rest,
        }
    }
}

fn kw_chars_blob() -> (r: Vec<char>)
    ensures
        r@ == kw_blob(),
{
    let r = vec!['b', 'l', 'o', 'b'];
    assert(r@ =~= kw_blob());
    r
}

/// The text one hydration appends to the sidecar: a row per file (in
/// the order given), then the snapshot row, each ending in a newline.
pub fn sidecar_text(files: &Vec<(String, ContentId)>, snapshot: Option<ContentId>) -> (r: String)
    ensures
        r@ == terminated_spec(
            sidecar_rows(
                file_pairs_view(files@),
                match snapshot {
                    Some(h) => Some(h.0@),
                    None => None,
                },
            ),
        ),
{
    let ghost fv = file_pairs_view(files@);
    let mut out: Vec<char> = Vec::new();
    let mut i: usize = 0;
    assert(blob_rows(fv).take(0) =~= Seq::<Seq<char>>::empty());
    while i < files.len()
        invariant
            i <= files@.len(),
            fv == file_pairs_view(files@),
            out@ == terminated_spec(blob_rows(fv).take(i as int)),
        decreases files@.len() - i,
    {
        let mut fields: Vec<Vec<char>> = Vec::new();
        fields.push(chars_of(files[i].0.as_str()));
        fields.push(kw_chars_blob());
        fields.push(files[i].1.hex_chars());
        assert(seqs_of(fields@) =~= seq![fv[i as int].0, kw_blob(), hex_spec(fv[i as int].1)]);
        let row = tab_line(&fields);
        push_line(&mut out, &row);
        assert(blob_rows(fv).take(i + 1).drop_last() =~= blob_rows(fv).take(i as int));
        i = i + 1;
    }
    assert(blob_rows(fv).take(i as int) =~= blob_rows(fv));
    match snapshot {
        Some(h) => {
            let mut fields: Vec<Vec<char>> = Vec::new();
            let dash = vec!['-'];
            assert(dash@ =~= seq!['-']);
            fields.push(dash);
            fields.push(kw_chars_snapshot());
            fields.push(h.hex_chars());
            assert(seqs_of(fields@) =~= seq![seq!['-'], kw_snapshot(), hex_spec(h.0@)]);
            let row = tab_line(&fields);
            push_line(&mut out, &row);
            assert(blob_rows(fv).push(snapshot_row(h.0@)).drop_last() =~= blob_rows(fv));
        },
        None => {},
    }
    string_of(&out)
}

fn sidecar_line_exec(line: &Vec<char>) -> (r: Option<(bool, ContentId)>)
    ensures
        match r {
            Some((s, id)) => sidecar_line(line@) == Some((s, id.0@)),
            None => sidecar_line(line@) is None,
        },
{
    let f = split_chars(line, '\t');
    let ghost fs = seqs_of(f@);
    assert(f.len() == fs.len());
    if f.len() == 2 {
        assert(f[1]@ == fs[1]);
        match ContentId::from_hex_chars(&f[1]) {
            Some(id) => Some((false, id)),
            None => None,
        }
    } else if f.len() == 3 {
        assert(f[1]@ == fs[1]);
        assert(f[2]@ == fs[2]);
        let is_blob = chars_eq(&f[1], &kw_chars_blob());
        let is_snap = chars_eq(&f[1], &kw_chars_snapshot());
        if is_blob {
            match ContentId::from_hex_chars(&f[2]) {
                Some(id) => Some((false, id)),
                None => None,
            }
        } else if is_snap {
            match ContentId::from_hex_chars(&f[2]) {
                Some(id) => Some((true, id)),
                None => None,
            }
        } else {
            None
        }
    } else {
        None
    }
}

/// Read a sidecar: the blob ids and the snapshot ids it records, rows
/// that are malformed skipped.
pub fn parse_sidecar(text: &str) -> (r: (IdSet, IdSet))
    ensures
        r.0@ == sidecar_ids(lines_spec(text@), false),
        r.1@ == sidecar_ids(lines_spec(text@), true),
{
    let lines = lines_of(&chars_of(text));
    let ghost ls = seqs_of(lines@);
    let mut blobs = IdSet::new();
    let mut snaps = IdSet::new();
    let mut i: usize = 0;
    assert(ls.take(0) =~= Seq::<Seq<char>>::empty());
    assert(blobs@ =~= Set::<Seq<u8>>::empty());
    assert(snaps@ =~= Set::<Seq<u8>>::empty());
    while i < lines.len()
        invariant
            i <= ls.len(),
            ls == seqs_of(lines@),
            blobs@ == sidecar_ids(ls.take(i as int), false),
            snaps@ == sidecar_ids(ls.take(i as int), true),
        decreases ls.len() - i,
    {
        assert(ls.take(i + 1).drop_last() =~= ls.take(i as int));
        assert(lines[i as int]@ == ls[i as int]);
        match sidecar_line_exec(&lines[i]) {
            Some((s, id)) => {
                if s {
                    snaps.insert(id);
                } else {
                    blobs.insert(id);
                }
            },
            None => {},
        }
        i = i + 1;
    }
    assert(ls.take(i as int) =~= ls);
    (blobs, snaps)
}

// ---------------------------------------------------------------------------
// Reading back what was written
// ---------------------------------------------------------------------------

proof fn lemma_hex_free(b: Seq<u8>)
    requires
        b.len() == 32,
    ensures
        !hex_spec(b).contains('\t'),
        !hex_spec(b).contains('\n'),
        hex_spec(b).last() != '\r',
        hex_spec(b).len() == 64,
{
    lemma_hex_round_trip(b);
    let h = hex_spec(b);
    assert(digit_value('\t', 16) < 0);
    assert(digit_value('\n', 16) < 0);
    assert(digit_value('\r', 16) < 0);
    if h.contains('\t') {
        let k = choose|k: int| 0 <= k < h.len() && h[k] == '\t';
        assert(digit_value(h[k], 16) >= 0);
    }
    if h.contains('\n') {
        let k = choose|k: int| 0 <= k < h.len() && h[k] == '\n';
        assert(digit_value(h[k], 16) >= 0);
    }
    assert(digit_value(h[63], 16) >= 0);
}

proof fn lemma_row_reads_back(kind: Seq<char>, first: Seq<char>, b: Seq<u8>)
    requires
        b.len() == 32,
        !first.contains('\t'),
        !kind.contains('\t'),
    ensures
        split_spec(join_spec(seq![first, kind, hex_spec(b)], '\t'), '\t') == seq![first, kind, hex_spec(b)],
        from_hex_spec(hex_spec(b)) == Some(b),
{
    lemma_hex_free(b);
    lemma_hex_round_trip(b);
    let ps = seq![first, kind, hex_spec(b)];
    assert(pieces_free_of(ps, '\t')) by {
        assert forall|i: int| 0 <= i < ps.len() implies !(#[trigger] ps[i]).contains('\t') by {
            if i == 0 {
            } else if i == 1 {
            } else {
            }
        }
    }
    lemma_split_join(ps, '\t');
}

proof fn lemma_rows_free(rows: Seq<Seq<char>>, files: Seq<(Seq<char>, Seq<u8>)>, snapshot: Option<Seq<u8>>)
    requires
        rows == sidecar_rows(files, snapshot),
        forall|i: int| 0 <= i < files.len() ==> !(#[trigger] files[i]).0.contains('\t') && !files[i].0.contains('\n') && files[i].1.len() == 32,
        match snapshot {
            Some(h) => h.len() == 32,
            None => true,
        },
    ensures
        pieces_free_of(rows, '\n'),
        forall|i: int| 0 <= i < rows.len() ==> strip_cr(#[trigger] rows[i]) == rows[i],
{
    lemma_keywords_plain();
    assert(!kw_blob().contains('\n') && !kw_blob().contains('\t')) by {
        if kw_blob().contains('\n') {
            let k = choose|k: int| 0 <= k < 4 && kw_blob()[k] == '\n';
        }
        if kw_blob().contains('\t') {
            let k = choose|k: int| 0 <= k < 4 && kw_blob()[k] == '\t';
        }
    }
    assert forall|i: int| 0 <= i < rows.len() implies !(#[trigger] rows[i]).contains('\n') && strip_cr(
        rows[i],
    ) == rows[i] by {
        let (first, kind, b) = if i < files.len() {
            (files[i].0, kw_blob(), files[i].1)
        } else {
            (seq!['-'], kw_snapshot(), snapshot->0)
        };
        lemma_hex_free(b);
        let ps = seq![first, kind, hex_spec(b)];
        assert(rows[i] == join_spec(ps, '\t'));
        assert(!first.contains('\n')) by {
            if i >= files.len() && first.contains('\n') {
                let k = choose|k: int| 0 <= k < 1 && first[k] == '\n';
            }
        }
        assert(pieces_free_of(ps, '\n')) by {
            assert forall|j: int| 0 <= j < ps.len() implies !(#[trigger] ps[j]).contains('\n') by {
                if j == 0 {
                } else if j == 1 {
                } else {
                }
            }
        }
        crate::text::lemma_join_free(ps, '\t', '\n');
        assert(ps.drop_last() =~= seq![first, kind]);
        assert(ps.last() == hex_spec(b));
        assert(join_spec(ps, '\t') == join_spec(seq![first, kind], '\t').push('\t') + hex_spec(b));
        assert(rows[i].last() == hex_spec(b).last());
    }
}

/// The ids recorded by a run of well-formed rows.
proof fn lemma_rows_ids(files: Seq<(Seq<char>, Seq<u8>)>, snapshot: Option<Seq<u8>>)
    requires
        forall|i: int| 0 <= i < files.len() ==> !(#[trigger] files[i]).0.contains('\t') && files[i].1.len() == 32,
        match snapshot {
            Some(h) => h.len() == 32,
            None => true,
        },
    ensures
        sidecar_ids(sidecar_rows(files, snapshot), false) == files.map_values(|p: (Seq<char>, Seq<u8>)| p.1).to_set(),
        sidecar_ids(sidecar_rows(files, snapshot), true) == match snapshot {
            Some(h) => set![h],
            None => Set::<Seq<u8>>::empty(),
        },
    decreases files.len() + if snapshot is Some { 1int } else { 0int },
{
    lemma_keywords_plain();
    assert(!kw_blob().contains('\t')) by {
        if kw_blob().contains('\t') {
            let k = choose|k: int| 0 <= k < 4 && kw_blob()[k] == '\t';
        }
    }
    assert(kw_blob() != kw_snapshot()) by {
        assert(kw_blob().len() != kw_snapshot().len());
    }
    let ids = files.map_values(|p: (Seq<char>, Seq<u8>)| p.1);
    match snapshot {
        Some(h) => {
            lemma_rows_ids(files, None);
            assert(!seq!['-'].contains('\t')) by {
                if seq!['-'].contains('\t') {
                    let k = choose|k: int| 0 <= k < 1 && seq!['-'][k] == '\t';
                }
            }
            lemma_row_reads_back(kw_snapshot(), seq!['-'], h);
            let rows = sidecar_rows(files, snapshot);
            assert(rows.drop_last() =~= blob_rows(files));
            assert(sidecar_line(rows.last()) == Some((true, h)));
            assert(sidecar_ids(rows, true) =~= set![h]);
        },
        None => {
            if files.len() == 0 {
                assert(blob_rows(files) =~= Seq::<Seq<char>>::empty());
                assert(ids.to_set() =~= Set::<Seq<u8>>::empty());
            } else {
                let init = files.drop_last();
                assert forall|i: int| 0 <= i < init.len() implies !(#[trigger] init[i]).0.contains('\t')
                    && init[i].1.len() == 32 by {
                    assert(init[i] == files[i]);
                }
                lemma_rows_ids(init, None);
                let last = files.last();
                assert(last == files[files.len() - 1]);
                lemma_row_reads_back(kw_blob(), last.0, last.1);
                let rows = blob_rows(files);
                assert(rows.drop_last() =~= blob_rows(init));
                assert(sidecar_line(rows.last()) == Some((false, last.1)));
                let iids = init.map_values(|p: (Seq<char>, Seq<u8>)| p.1);
                assert(ids =~= iids.push(last.1));
                iids.lemma_push_to_set_commute(last.1);
                assert(sidecar_ids(rows, false) =~= ids.to_set());
                assert(sidecar_ids(rows, true) =~= Set::<Seq<u8>>::empty());
            }
        },
    }
}

/// Lines written newline-terminated, none holding a newline or ending
/// in a carriage return, read back as written.
proof fn lemma_lines_of_terminated(rows: Seq<Seq<char>>)
    requires
        pieces_free_of(rows, '\n'),
        forall|i: int| 0 <= i < rows.len() ==> strip_cr(#[trigger] rows[i]) == rows[i],
    ensures
        lines_spec(terminated_spec(rows)) == rows,
{
    if rows.len() == 0 {
        assert(terminated_spec(rows) =~= Seq::<char>::empty());
        assert(split_spec(Seq::<char>::empty(), '\n') =~= seq![Seq::<char>::empty()]);
        assert(lines_spec(terminated_spec(rows)) =~= rows);
    } else {
        crate::mirror::lemma_terminated_join(rows);
        let j = join_spec(rows, '\n');
        lemma_split_join(rows, '\n');
        let t = j.push('\n');
        assert(t.drop_last() =~= j);
        assert(split_spec(t, '\n') == rows.push(Seq::<char>::empty()));
        assert(rows.push(Seq::<char>::empty()).drop_last() =~= rows);
        assert(rows.map_values(strip_cr_fn()) =~= rows);
    }
}

/// What a hydration appends to an empty sidecar reads back as exactly
/// its file blobs and its snapshot, for file paths free of tabs and
/// newlines.
pub proof fn lemma_sidecar_round_trip(files: Seq<(Seq<char>, Seq<u8>)>, snapshot: Option<Seq<u8>>)
    requires
        forall|i: int| 0 <= i < files.len() ==> !(#[trigger] files[i]).0.contains('\t') && !files[i].0.contains('\n') && files[i].1.len() == 32,
        match snapshot {
            Some(h) => h.len() == 32,
            None => true,
        },
    ensures
        sidecar_ids(lines_spec(terminated_spec(sidecar_rows(files, snapshot))), false)
            == files.map_values(|p: (Seq<char>, Seq<u8>)| p.1).to_set(),
        sidecar_ids(lines_spec(terminated_spec(sidecar_rows(files, snapshot))), true)
            == match snapshot {
            Some(h) => set![h],
            None => Set::<Seq<u8>>::empty(),
        },
{
    let rows = sidecar_rows(files, snapshot);
    lemma_rows_free(rows, files, snapshot);
    lemma_lines_of_terminated(rows);
    lemma_rows_ids(files, snapshot);
}

} // verus!
