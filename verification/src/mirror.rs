//! Store-local worktree mirrors: the authoritative GC root for one
//! hydrated worktree, kept inside the store at
//! `<root>/worktrees/<key>.tsv`.
//!
//! The key is the SHA-256 hex of
//! `version=1 \0 <canonical worktree path> \0 <canonical gitdir path>`.
//!
//! Record format (tab-separated, one record per line):
//!
//! ```text
//! v1<TAB>worktree<TAB><escaped-worktree-path><TAB><escaped-gitdir-path>
//! file<TAB><64-hex-blob-id>
//! snapshot<TAB><64-hex-manifest-hash>
//! ```
//!
//! Paths are percent-escaped: `%25` (%), `%09` (tab), `%0A` (newline),
//! `%0D` (carriage return) — exactly the characters the framing cannot
//! carry. Decoding rejects every other escape.
//!
//! Validity: exactly one `v1` header line first; a final line without
//! its newline is a torn append and is ignored; unknown record types,
//! malformed ids, and duplicate records reject the whole mirror.

use vstd::prelude::*;

use crate::hash::{sha256, spec_sha256};
use crate::idset::{strictly_sorted, IdSet};
use crate::order::{bytes_lt, lemma_bytes_order};
use crate::paths::{join_path_lit, join_chars_path, path_join};
use crate::text::{
    all_digits, chars_eq, chars_of, complete_body, complete_body_of, digit_value, digits_value,
    extend_chars, join_chars, join_spec, last_index_spec, nonempty_fn, record_lines, lemma_split_join, lemma_split_nonempty,
    parse_uint, parse_uint_spec, pieces_free_of, seqs_of, split_chars, split_spec,
    string_of, cat2, debug_quote, extend_str, fmt_uint,
};
use crate::{from_hex_spec, hex_spec, lemma_hex_round_trip, ContentId};

verus! {

// ---------------------------------------------------------------------------
// Escaping
// ---------------------------------------------------------------------------

/// How one character is written inside an escaped field.
pub open spec fn escape_char_spec(c: char) -> Seq<char> {
    if c == '%' {
        seq!['%', '2', '5']
    } else if c == '\t' {
        seq!['%', '0', '9']
    } else if c == '\n' {
        seq!['%', '0', 'A']
    } else if c == '\r' {
        seq!['%', '0', 'D']
    } else {
        seq![c]
    }
}

/// The escaped form of a field.
pub open spec fn escape_spec(s: Seq<char>) -> Seq<char>
    decreases s.len(),
{
    if s.len() == 0 {
        Seq::empty()
    } else {
        escape_spec(s.drop_last()) + escape_char_spec(s.last())
    }
}

/// The character an escape `%<hi><lo>` stands for. Only the four
/// sequences the escaper emits decode: `%25`, `%09`, `%0A` and `%0D`.
pub open spec fn unescape_pair_spec(hi: char, lo: char) -> Option<char> {
    if hi == '2' && lo == '5' {
        Some('%')
    } else if hi == '0' && lo == '9' {
        Some('\t')
    } else if hi == '0' && lo == 'A' {
        Some('\n')
    } else if hi == '0' && lo == 'D' {
        Some('\r')
    } else {
        None
    }
}

/// `p` prepended to a successful decode.
pub open spec fn prepend_opt(p: Seq<char>, r: Option<Seq<char>>) -> Option<Seq<char>> {
    match r {
        Some(x) => Some(p + x),
        None => None,
    }
}

/// The decoded field, or `None` when the field holds a bare or truncated
/// `%` or an escape that [`escape`] never emits.
pub open spec fn unescape_spec(s: Seq<char>) -> Option<Seq<char>>
    decreases s.len(),
{
    if s.len() == 0 {
        Some(Seq::empty())
    } else if s[0] != '%' {
        prepend_opt(seq![s[0]], unescape_spec(s.drop_first()))
    } else if s.len() < 3 {
        None
    } else {
        match unescape_pair_spec(s[1], s[2]) {
            Some(c) => prepend_opt(seq![c], unescape_spec(s.skip(3))),
            None => None,
        }
    }
}

proof fn lemma_escape_front(s: Seq<char>)
    requires
        s.len() > 0,
    ensures
        escape_spec(s) == escape_char_spec(s[0]) + escape_spec(s.drop_first()),
    decreases s.len(),
{
    if s.len() == 1 {
        assert(s.drop_last() =~= Seq::<char>::empty());
        assert(s.drop_first() =~= Seq::<char>::empty());
        assert(escape_spec(s.drop_last()) =~= Seq::<char>::empty());
        assert(escape_spec(s.drop_first()) =~= Seq::<char>::empty());
        assert(escape_spec(s) =~= escape_char_spec(s[0]));
        assert(escape_char_spec(s[0]) + Seq::<char>::empty() =~= escape_char_spec(s[0]));
    } else {
        lemma_escape_front(s.drop_last());
        assert(s.drop_last().drop_first() =~= s.drop_first().drop_last());
        assert(s.drop_first().last() == s.last());
        assert(s.drop_last()[0] == s[0]);
        assert(escape_spec(s) =~= escape_char_spec(s[0]) + escape_spec(s.drop_first()));
    }
}

proof fn lemma_unescape_pairs()
    ensures
        unescape_pair_spec('2', '5') == Some('%'),
        unescape_pair_spec('0', '9') == Some('\t'),
        unescape_pair_spec('0', 'A') == Some('\n'),
        unescape_pair_spec('0', 'D') == Some('\r'),
{
}

/// A field without `%`, tab, newline or carriage return escapes to
/// itself.
pub proof fn lemma_escape_plain(s: Seq<char>)
    requires
        !s.contains('%'),
        !s.contains('\t'),
        !s.contains('\n'),
        !s.contains('\r'),
    ensures
        escape_spec(s) == s,
    decreases s.len(),
{
    if s.len() > 0 {
        let init = s.drop_last();
        assert(!init.contains('%') && !init.contains('\t') && !init.contains('\n') && !init.contains(
            '\r',
        )) by {
            assert forall|c: char| init.contains(c) implies s.contains(c) by {
                let k = choose|k: int| 0 <= k < init.len() && init[k] == c;
                assert(s[k] == c);
            }
        }
        lemma_escape_plain(init);
        assert(s.contains(s.last())) by {
            assert(s[s.len() - 1] == s.last());
        }
        assert(init.push(s.last()) =~= s);
    } else {
        assert(escape_spec(s) =~= s);
    }
}

/// Decoding an escaped field gives the field back.
pub proof fn lemma_unescape_escape(s: Seq<char>)
    ensures
        unescape_spec(escape_spec(s)) == Some(s),
    decreases s.len(),
{
    if s.len() == 0 {
        assert(escape_spec(s) =~= Seq::<char>::empty());
    } else {
        lemma_escape_front(s);
        lemma_unescape_escape(s.drop_first());
        lemma_unescape_pairs();
        let c = s[0];
        let rest = escape_spec(s.drop_first());
        let e = escape_char_spec(c) + rest;
        if c == '%' || c == '\t' || c == '\n' || c == '\r' {
            assert(e.skip(3) =~= rest);
            assert(e[0] == '%');
        } else {
            assert(e.drop_first() =~= rest);
        }
        assert(seq![c] + s.drop_first() =~= s);
    }
}

/// Escaped fields never hold the framing characters.
#[verifier::spinoff_prover]
#[verifier::rlimit(30)]
pub proof fn lemma_escape_framing_free(s: Seq<char>)
    ensures
        !escape_spec(s).contains('\t'),
        !escape_spec(s).contains('\n'),
        !escape_spec(s).contains('\r'),
    decreases s.len(),
{
    if s.len() > 0 {
        lemma_escape_framing_free(s.drop_last());
        let a = escape_spec(s.drop_last());
        let b = escape_char_spec(s.last());
        assert(escape_spec(s) == a + b);
        lemma_concat_free(a, b, '\t');
        lemma_concat_free(a, b, '\n');
        lemma_concat_free(a, b, '\r');
    }
}

proof fn lemma_concat_free(a: Seq<char>, b: Seq<char>, x: char)
    requires
        !a.contains(x),
        forall|k: int| 0 <= k < b.len() ==> b[k] != x,
    ensures
        !(a + b).contains(x),
{
    if (a + b).contains(x) {
        let k = choose|k: int| 0 <= k < (a + b).len() && (a + b)[k] == x;
        if k < a.len() {
            assert(a[k] == x);
        } else {
            assert(b[k - a.len()] == x);
        }
    }
}

pub(crate) fn escape_chars(v: &Vec<char>) -> (r: Vec<char>)
    ensures
        r@ == escape_spec(v@),
{
    let mut out: Vec<char> = Vec::new();
    for i in 0..v.len()
        invariant
            out@ == escape_spec(v@.take(i as int)),
    {
        let c = v[i];
        if c == '%' {
            out.push('%');
            out.push('2');
            out.push('5');
        } else if c == '\t' {
            out.push('%');
            out.push('0');
            out.push('9');
        } else if c == '\n' {
            out.push('%');
            out.push('0');
            out.push('A');
        } else if c == '\r' {
            out.push('%');
            out.push('0');
            out.push('D');
        } else {
            out.push(c);
        }
        assert(v@.take(i + 1).drop_last() =~= v@.take(i as int));
        assert(v@.take(i + 1).last() == c);
        assert(out@ =~= escape_spec(v@.take(i + 1)));
    }
    assert(v@.take(v.len() as int) =~= v@);
    out
}

/// Escape one TSV field: percent-encode the framing characters.
pub fn escape(field: &str) -> (r: String)
    ensures
        r@ == escape_spec(field@),
{
    let v = chars_of(field);
    let e = escape_chars(&v);
    string_of(&e)
}

fn unescape_pair(hi: char, lo: char) -> (r: Option<char>)
    ensures
        r == unescape_pair_spec(hi, lo),
{
    if hi == '2' && lo == '5' {
        Some('%')
    } else if hi == '0' && lo == '9' {
        Some('\t')
    } else if hi == '0' && lo == 'A' {
        Some('\n')
    } else if hi == '0' && lo == 'D' {
        Some('\r')
    } else {
        None
    }
}

/// The complaint about the escape `%` `hi` `lo`: two characters that
/// spell no byte in hex are malformed; a byte that is not one of the
/// four escapes is unexpected, and named as `0x` and two lowercase hex
/// digits.
pub open spec fn escape_complaint_spec(hi: char, lo: char) -> Seq<char> {
    match parse_uint_spec(seq![hi, lo], 16, 255) {
        Some(v) => "unexpected % escape %"@ + seq![hi, lo] + " (0x"@ + (if v < 16 {
            seq!['0']
        } else {
            Seq::<char>::empty()
        }) + crate::text::fmt_uint_spec(v, 16) + seq![')'],
        None => "malformed % escape %"@ + seq![hi, lo],
    }
}

/// What is wrong with the escape `%` `hi` `lo`, as
/// [`escape_complaint_spec`] words it.
fn escape_complaint(hi: char, lo: char) -> (r: String)
    ensures
        r@ == escape_complaint_spec(hi, lo),
{
    let mut two: Vec<char> = Vec::new();
    two.push(hi);
    two.push(lo);
    assert(two@ =~= seq![hi, lo]);
    match parse_uint(&two, 16, 255) {
        Some(v) => {
            let mut m = chars_of("unexpected % escape %");
            m.push(hi);
            m.push(lo);
            extend_str(&mut m, " (0x");
            let ghost a = m@;
            if v < 16 {
                m.push('0');
            }
            let ghost b = m@;
            assert(b == a + (if v < 16 {
                seq!['0']
            } else {
                Seq::<char>::empty()
            }));
            extend_chars(&mut m, &fmt_uint(v, 16));
            m.push(')');
            assert(m@ =~= "unexpected % escape %"@ + seq![hi, lo] + " (0x"@ + (if v < 16 {
                seq!['0']
            } else {
                Seq::<char>::empty()
            }) + crate::text::fmt_uint_spec(v as nat, 16) + seq![')']);
            string_of(&m)
        },
        None => {
            let mut m = chars_of("malformed % escape %");
            m.push(hi);
            m.push(lo);
            assert(m@ =~= "malformed % escape %"@ + seq![hi, lo]);
            string_of(&m)
        },
    }
}

pub(crate) fn text_message(s: &str) -> (r: String)
    ensures
        r@ == s@,
{
    s.to_owned()
}

/// [`unescape`] over characters.
pub fn unescape_chars(v: &Vec<char>) -> (r: Result<Vec<char>, String>)
    ensures
        match r {
            Ok(d) => unescape_spec(v@) == Some(d@),
            Err(_) => unescape_spec(v@) is None,
        },
{
    let mut out: Vec<char> = Vec::new();
    let mut i: usize = 0;
    assert(v@.skip(0) =~= v@);
    assert(out@ + Seq::<char>::empty() =~= Seq::<char>::empty());
    while i < v.len()
        invariant
            i <= v.len(),
            unescape_spec(v@) == prepend_opt(out@, unescape_spec(v@.skip(i as int))),
        decreases v.len() - i,
    {
        let c = v[i];
        let ghost t = v@.skip(i as int);
        assert(t[0] == c);
        if c != '%' {
            assert(t.drop_first() =~= v@.skip(i + 1));
            let ghost before = out@;
            out.push(c);
            assert(prepend_opt(before, prepend_opt(seq![c], unescape_spec(v@.skip(i + 1))))
                == prepend_opt(out@, unescape_spec(v@.skip(i + 1)))) by {
                assert(before + seq![c] =~= out@);
                match unescape_spec(v@.skip(i + 1)) {
                    Some(x) => {
                        assert(before + (seq![c] + x) =~= out@ + x);
                    },
                    None => {},
                }
            }
            i = i + 1;
        } else {
            if i + 1 >= v.len() {
                return Err(text_message("field ends with a bare %"));
            }
            if i + 2 >= v.len() {
                return Err(text_message("truncated % escape"));
            }
            let hi = v[i + 1];
            let lo = v[i + 2];
            assert(t[1] == hi && t[2] == lo);
            match unescape_pair(hi, lo) {
                Some(d) => {
                    assert(t.skip(3) =~= v@.skip(i + 3));
                    let ghost before = out@;
                    out.push(d);
                    assert(prepend_opt(before, prepend_opt(seq![d], unescape_spec(v@.skip(i + 3))))
                        == prepend_opt(out@, unescape_spec(v@.skip(i + 3)))) by {
                        assert(before + seq![d] =~= out@);
                        match unescape_spec(v@.skip(i + 3)) {
                            Some(x) => {
                                assert(before + (seq![d] + x) =~= out@ + x);
                            },
                            None => {},
                        }
                    }
                    i = i + 3;
                },
                None => {
                    return Err(escape_complaint(hi, lo));
                },
            }
        }
    }
    assert(v@.skip(i as int) =~= Seq::<char>::empty());
    assert(out@ + Seq::<char>::empty() =~= out@);
    Ok(out)
}

/// Inverse of [`escape`]. Only the four emitted sequences decode;
/// anything else means the field was edited underneath us.
pub fn unescape(field: &str) -> (r: Result<String, String>)
    ensures
        match r {
            Ok(d) => unescape_spec(field@) == Some(d@),
            Err(_) => unescape_spec(field@) is None,
        },
{
    let v = chars_of(field);
    match unescape_chars(&v) {
        Ok(d) => Ok(string_of(&d)),
        Err(e) => Err(e),
    }
}

// ---------------------------------------------------------------------------
// Line-oriented record files
// ---------------------------------------------------------------------------

/// Lines each followed by `'\n'`.
pub open spec fn terminated_spec(lines: Seq<Seq<char>>) -> Seq<char>
    decreases lines.len(),
{
    if lines.len() == 0 {
        Seq::empty()
    } else {
        terminated_spec(lines.drop_last()) + lines.last().push('\n')
    }
}

/// A non-empty run of newline-terminated lines is their join plus a
/// final newline.
pub proof fn lemma_terminated_join(lines: Seq<Seq<char>>)
    requires
        lines.len() >= 1,
    ensures
        terminated_spec(lines) == join_spec(lines, '\n').push('\n'),
    decreases lines.len(),
{
    if lines.len() == 1 {
        assert(lines.drop_last() =~= Seq::<Seq<char>>::empty());
        assert(terminated_spec(lines.drop_last()) =~= Seq::<char>::empty());
        assert(terminated_spec(lines) =~= lines[0].push('\n'));
    } else {
        lemma_terminated_join(lines.drop_last());
        let a = join_spec(lines.drop_last(), '\n');
        assert(terminated_spec(lines) =~= a.push('\n') + lines.last().push('\n'));
        assert(join_spec(lines, '\n') == a.push('\n') + lines.last());
        assert(terminated_spec(lines) =~= join_spec(lines, '\n').push('\n'));
    }
}

/// The complete body of newline-terminated, newline-free lines is their
/// join, and splitting it on `'\n'` gives the lines back.
pub proof fn lemma_terminated_body(lines: Seq<Seq<char>>)
    requires
        lines.len() >= 1,
        pieces_free_of(lines, '\n'),
    ensures
        complete_body(terminated_spec(lines)) == Some(join_spec(lines, '\n')),
        split_spec(join_spec(lines, '\n'), '\n') == lines,
{
    lemma_terminated_join(lines);
    let j = join_spec(lines, '\n');
    let t = j.push('\n');
    assert(last_index_spec(t, '\n') == j.len());
    assert(t.take(j.len() as int) =~= j);
    lemma_split_join(lines, '\n');
}

/// Lines taken back from their newline-terminated text: the
/// non-empty, newline-free lines come back as they were.
pub proof fn lemma_record_lines_terminated(lines: Seq<Seq<char>>)
    requires
        pieces_free_of(lines, '\n'),
        forall|i: int| 0 <= i < lines.len() ==> (#[trigger] lines[i]).len() > 0,
    ensures
        record_lines(terminated_spec(lines)) == lines,
{
    if lines.len() == 0 {
        assert(terminated_spec(lines) =~= Seq::<char>::empty());
        assert(last_index_spec(Seq::<char>::empty(), '\n') == -1);
    } else {
        lemma_terminated_body(lines);
        lemma_filter_all_nonempty(lines);
    }
}

pub proof fn lemma_filter_all_nonempty(lines: Seq<Seq<char>>)
    requires
        forall|i: int| 0 <= i < lines.len() ==> (#[trigger] lines[i]).len() > 0,
    ensures
        lines.filter(nonempty_fn()) == lines,
    decreases lines.len(),
{
    broadcast use vstd::seq_lib::group_filter_ensures;

    if lines.len() == 0 {
        assert(lines.filter(nonempty_fn()) =~= lines);
    } else {
        let init = lines.drop_last();
        assert forall|i: int| 0 <= i < init.len() implies (#[trigger] init[i]).len() > 0 by {
            assert(init[i] == lines[i]);
        }
        lemma_filter_all_nonempty(init);
        init.lemma_filter_push(lines.last(), nonempty_fn());
        assert(lines.last() == lines[lines.len() - 1]);
        assert(init.push(lines.last()) =~= lines);
    }
}

// ---------------------------------------------------------------------------
// The mirror record file
// ---------------------------------------------------------------------------

pub open spec fn kw_v1() -> Seq<char> {
    seq!['v', '1']
}

pub open spec fn kw_worktree() -> Seq<char> {
    seq!['w', 'o', 'r', 'k', 't', 'r', 'e', 'e']
}

pub open spec fn kw_file() -> Seq<char> {
    seq!['f', 'i', 'l', 'e']
}

pub open spec fn kw_snapshot() -> Seq<char> {
    seq!['s', 'n', 'a', 'p', 's', 'h', 'o', 't']
}

/// A keyword made of lowercase letters and digits only.
pub open spec fn plain_word(w: Seq<char>) -> bool {
    forall|i: int|
        0 <= i < w.len() ==> ('a' <= #[trigger] w[i] <= 'z' || '0' <= w[i] <= '9' || w[i] == '-')
}

pub proof fn lemma_plain_word_free(w: Seq<char>)
    requires
        plain_word(w),
    ensures
        !w.contains('\r'),
        !w.contains('\t'),
        !w.contains('\n'),
{
    if w.contains('\t') {
        let k = choose|k: int| 0 <= k < w.len() && w[k] == '\t';
    }
    if w.contains('\r') {
        let k = choose|k: int| 0 <= k < w.len() && w[k] == '\r';
    }
    if w.contains('\n') {
        let k = choose|k: int| 0 <= k < w.len() && w[k] == '\n';
    }
}

pub proof fn lemma_keywords_plain()
    ensures
        !kw_v1().contains('\r'),
        !kw_v1().contains('\t'),
        !kw_v1().contains('\n'),
        !kw_worktree().contains('\t'),
        !kw_worktree().contains('\n'),
        !kw_file().contains('\t'),
        !kw_file().contains('\n'),
        !kw_snapshot().contains('\t'),
        !kw_snapshot().contains('\n'),
        kw_file() != kw_snapshot(),
{
    lemma_plain_word_free(kw_v1());
    lemma_plain_word_free(kw_worktree());
    lemma_plain_word_free(kw_file());
    lemma_plain_word_free(kw_snapshot());
    assert(kw_file().len() != kw_snapshot().len());
}

/// The header line of a mirror.
pub open spec fn mirror_header_line(wt: Seq<char>, gd: Seq<char>) -> Seq<char> {
    join_spec(seq![kw_v1(), kw_worktree(), escape_spec(wt), escape_spec(gd)], '\t')
}

/// One `file` or `snapshot` record line.
pub open spec fn id_line_spec(kind: Seq<char>, id: Seq<u8>) -> Seq<char> {
    join_spec(seq![kind, hex_spec(id)], '\t')
}

/// One record line per id, in order.
pub open spec fn id_lines_spec(kind: Seq<char>, ids: Seq<Seq<u8>>) -> Seq<Seq<char>> {
    ids.map_values(|id: Seq<u8>| id_line_spec(kind, id))
}

/// Every line of a mirror, in file order.
pub open spec fn mirror_lines_spec(
    wt: Seq<char>,
    gd: Seq<char>,
    files: Seq<Seq<u8>>,
    snapshots: Seq<Seq<u8>>,
) -> Seq<Seq<char>> {
    seq![mirror_header_line(wt, gd)] + id_lines_spec(kw_file(), files) + id_lines_spec(
        kw_snapshot(),
        snapshots,
    )
}

/// The serialized mirror text.
pub open spec fn mirror_text_spec(
    wt: Seq<char>,
    gd: Seq<char>,
    files: Seq<Seq<u8>>,
    snapshots: Seq<Seq<u8>>,
) -> Seq<char> {
    terminated_spec(mirror_lines_spec(wt, gd, files, snapshots))
}

/// The worktree and gitdir a header line names, when it is a valid
/// `v1` header with non-empty paths.
pub open spec fn mirror_header_spec(line: Seq<char>) -> Option<(Seq<char>, Seq<char>)> {
    let f = split_spec(line, '\t');
    if f.len() == 4 && f[0] == kw_v1() && f[1] == kw_worktree() {
        match (unescape_spec(f[2]), unescape_spec(f[3])) {
            (Some(w), Some(g)) => if w.len() > 0 && g.len() > 0 {
                Some((w, g))
            } else {
                None
            },
            _ => None,
        }
    } else {
        None
    }
}

/// The file and snapshot sets record lines add up to; `None` on an
/// unknown record, a malformed id, or a duplicate.
pub open spec fn mirror_records_spec(lines: Seq<Seq<char>>) -> Option<
    (Set<Seq<u8>>, Set<Seq<u8>>),
>
    decreases lines.len(),
{
    if lines.len() == 0 {
        Some((Set::empty(), Set::empty()))
    } else {
        match mirror_records_spec(lines.drop_last()) {
            None => None,
            Some((fs, ss)) => {
                let f = split_spec(lines.last(), '\t');
                if f.len() == 2 && (f[0] == kw_file() || f[0] == kw_snapshot()) {
                    match from_hex_spec(f[1]) {
                        None => None,
                        Some(id) => if f[0] == kw_file() {
                            if fs.contains(id) {
                                None
                            } else {
                                Some((fs.insert(id), ss))
                            }
                        } else {
                            if ss.contains(id) {
                                None
                            } else {
                                Some((fs, ss.insert(id)))
                            }
                        },
                    }
                } else {
                    None
                }
            },
        }
    }
}

/// What parsing mirror text yields: worktree, gitdir, file ids, and
/// snapshot ids — or `None` when the mirror is invalid.
pub open spec fn mirror_parse_spec(text: Seq<char>) -> Option<
    (Seq<char>, Seq<char>, Set<Seq<u8>>, Set<Seq<u8>>),
> {
    match complete_body(text) {
        None => None,
        Some(body) => {
            let lines = split_spec(body, '\n');
            match mirror_header_spec(lines[0]) {
                None => None,
                Some((w, g)) => match mirror_records_spec(lines.drop_first()) {
                    None => None,
                    Some((fs, ss)) => Some((w, g, fs, ss)),
                },
            }
        },
    }
}

/// The parsed contents of one mirror file.
#[derive(Debug, Clone, PartialEq, Eq)]
pub struct StoreMirror {
    /// Canonical path of the worktree directory.
    pub worktree: String,
    /// Canonical path of the worktree's git dir.
    pub gitdir: String,
    /// Every distinct blob the hydration placed, one `file` record each.
    pub files: IdSet,
    /// Published snapshot manifests this worktree hydrates from.
    pub snapshots: IdSet,
}

pub(crate) fn kw_chars_v1() -> (r: Vec<char>)
    ensures
        r@ == kw_v1(),
{
    let r = vec!['v', '1'];
    assert(r@ =~= kw_v1());
    r
}

fn kw_chars_worktree() -> (r: Vec<char>)
    ensures
        r@ == kw_worktree(),
{
    let r = vec!['w', 'o', 'r', 'k', 't', 'r', 'e', 'e'];
    assert(r@ =~= kw_worktree());
    r
}

pub(crate) fn kw_chars_file() -> (r: Vec<char>)
    ensures
        r@ == kw_file(),
{
    let r = vec!['f', 'i', 'l', 'e'];
    assert(r@ =~= kw_file());
    r
}

pub(crate) fn kw_chars_snapshot() -> (r: Vec<char>)
    ensures
        r@ == kw_snapshot(),
{
    let r = vec!['s', 'n', 'a', 'p', 's', 'h', 'o', 't'];
    assert(r@ =~= kw_snapshot());
    r
}

/// A line made of the given fields joined by tabs.
pub(crate) fn tab_line(fields: &Vec<Vec<char>>) -> (r: Vec<char>)
    ensures
        r@ == join_spec(seqs_of(fields@), '\t'),
{
    join_chars(fields, '\t')
}

fn id_line(kind: &Vec<char>, id: &ContentId) -> (r: Vec<char>)
    ensures
        r@ == id_line_spec(kind@, id.0@),
{
    let mut fields: Vec<Vec<char>> = Vec::new();
    fields.push(kind.clone());
    fields.push(id.hex_chars());
    assert(seqs_of(fields@) =~= seq![kind@, hex_spec(id.0@)]);
    tab_line(&fields)
}

/// Appends one line and its newline.
pub(crate) fn push_line(out: &mut Vec<char>, line: &Vec<char>)
    ensures
        final(out)@ == old(out)@ + line@.push('\n'),
{
    extend_chars(out, line);
    out.push('\n');
    assert(final(out)@ =~= old(out)@ + line@.push('\n'));
}

impl StoreMirror {
    /// An empty mirror for the given worktree and its git directory.
    pub fn new(worktree: String, gitdir: String) -> (m: StoreMirror)
        ensures
            m.worktree == worktree,
            m.gitdir == gitdir,
            m.files.items().len() == 0,
            m.snapshots.items().len() == 0,
    {
        StoreMirror { worktree, gitdir, files: IdSet::new(), snapshots: IdSet::new() }
    }

    /// The serialized text of this mirror.
    pub open spec fn text(&self) -> Seq<char> {
        mirror_text_spec(self.worktree@, self.gitdir@, self.files.items(), self.snapshots.items())
    }

    /// Render the mirror as TSV (see the module docs).
    pub fn serialize(&self) -> (r: String)
        ensures
            r@ == self.text(),
            strictly_sorted(self.files.items()),
            strictly_sorted(self.snapshots.items()),
            self.worktree@.len() > 0 && self.gitdir@.len() > 0 ==> mirror_parse_spec(r@) == Some(
                (self.worktree@, self.gitdir@, self.files@, self.snapshots@),
            ),
    {
        self.files.witness_sorted();
        self.snapshots.witness_sorted();
        proof {
            if self.worktree@.len() > 0 && self.gitdir@.len() > 0 {
                lemma_mirror_round_trip(
                    self.worktree@,
                    self.gitdir@,
                    self.files.items(),
                    self.snapshots.items(),
                );
            }
        }
        let ghost lines = mirror_lines_spec(
            self.worktree@,
            self.gitdir@,
            self.files.items(),
            self.snapshots.items(),
        );
        let mut out: Vec<char> = Vec::new();
        let mut header: Vec<Vec<char>> = Vec::new();
        header.push(kw_chars_v1());
        header.push(kw_chars_worktree());
        header.push(escape_chars(&chars_of(self.worktree.as_str())));
        header.push(escape_chars(&chars_of(self.gitdir.as_str())));
        assert(seqs_of(header@) =~= seq![
            kw_v1(),
            kw_worktree(),
            escape_spec(self.worktree@),
            escape_spec(self.gitdir@),
        ]);
        let h = tab_line(&header);
        push_line(&mut out, &h);
        assert(lines.take(1) =~= seq![h@]);
        assert(out@ =~= terminated_spec(lines.take(1))) by {
            assert(seq![h@].drop_last() =~= Seq::<Seq<char>>::empty());
            assert(terminated_spec(seq![h@].drop_last()) =~= Seq::<char>::empty());
        }
        let file_kw = kw_chars_file();
        let nf = self.files.len();
        for i in 0..nf
            invariant
                nf == self.files.items().len(),
                file_kw@ == kw_file(),
                lines == mirror_lines_spec(
                    self.worktree@,
                    self.gitdir@,
                    self.files.items(),
                    self.snapshots.items(),
                ),
                out@ == terminated_spec(lines.take(1 + i)),
        {
            let id = self.files.get(i);
            let l = id_line(&file_kw, &id);
            push_line(&mut out, &l);
            assert(lines.take(1 + i + 1).drop_last() =~= lines.take(1 + i));
            assert(lines[1 + i] == l@);
        }
        let snap_kw = kw_chars_snapshot();
        let ns = self.snapshots.len();
        for i in 0..ns
            invariant
                nf == self.files.items().len(),
                ns == self.snapshots.items().len(),
                snap_kw@ == kw_snapshot(),
                lines == mirror_lines_spec(
                    self.worktree@,
                    self.gitdir@,
                    self.files.items(),
                    self.snapshots.items(),
                ),
                out@ == terminated_spec(lines.take(1 + nf + i)),
        {
            let id = self.snapshots.get(i);
            let l = id_line(&snap_kw, &id);
            push_line(&mut out, &l);
            assert(lines.take(1 + nf + i + 1).drop_last() =~= lines.take(1 + nf + i));
            assert(lines[1 + nf + i] == l@);
        }
        assert(lines.take(1 + nf + ns) =~= lines);
        string_of(&out)
    }

    /// Parse mirror text. See the module docs for the validity rules.
    pub fn parse(text: &str) -> (r: Result<StoreMirror, String>)
        ensures
            match r {
                Ok(m) => mirror_parse_spec(text@) == Some(
                    (m.worktree@, m.gitdir@, m.files@, m.snapshots@),
                ),
                Err(_) => mirror_parse_spec(text@) is None,
            },
    {
        let v = chars_of(text);
        let body = match complete_body_of(&v) {
            None => {
                return Err(text_message("no complete records (header line is torn)"));
            },
            Some(b) => b,
        };
        let lines = split_chars(&body, '\n');
        proof {
            lemma_split_nonempty(body@, '\n');
        }
        let ghost ls = seqs_of(lines@);
        assert(ls[0] == lines[0]@);
        let fields = split_chars(&lines[0], '\t');
        if fields.len() != 4 || !chars_eq(&fields[0], &kw_chars_v1()) || !chars_eq(
            &fields[1],
            &kw_chars_worktree(),
        ) {
            return Err(cat2("bad v1 header line ", debug_quote(string_of(&lines[0]).as_str()).as_str()));
        }
        assert(seqs_of(fields@)[2] == fields[2]@);
        assert(seqs_of(fields@)[3] == fields[3]@);
        let worktree = match unescape_chars(&fields[2]) {
            Ok(w) => w,
            Err(e) => {
                return Err(e);
            },
        };
        if worktree.len() == 0 {
            return Err(text_message("empty worktree path in header"));
        }
        let gitdir = match unescape_chars(&fields[3]) {
            Ok(g) => g,
            Err(e) => {
                return Err(e);
            },
        };
        if gitdir.len() == 0 {
            return Err(text_message("empty gitdir path in header"));
        }
        let mut files = IdSet::new();
        let mut snapshots = IdSet::new();
        let file_kw = kw_chars_file();
        let snap_kw = kw_chars_snapshot();
        let ghost recs = ls.drop_first();
        assert(recs.take(0) =~= Seq::<Seq<char>>::empty());
        assert(files@ =~= Set::<Seq<u8>>::empty());
        assert(snapshots@ =~= Set::<Seq<u8>>::empty());
        assert(mirror_header_spec(ls[0]) == Some((worktree@, gitdir@)));
        assert(mirror_parse_spec(text@) == match mirror_records_spec(recs) {
            None => None,
            Some((fs, ss)) => Some((worktree@, gitdir@, fs, ss)),
        });
        for i in 1..lines.len()
            invariant
                ls == seqs_of(lines@),
                recs == ls.drop_first(),
                mirror_parse_spec(text@) == match mirror_records_spec(recs) {
                    None => None,
                    Some((fs, ss)) => Some((worktree@, gitdir@, fs, ss)),
                },
                file_kw@ == kw_file(),
                snap_kw@ == kw_snapshot(),
                mirror_records_spec(recs.take(i - 1)) == Some((files@, snapshots@)),
        {
            let ghost pre = recs.take(i - 1);
            assert(recs.take(i as int).drop_last() =~= pre);
            assert(recs.take(i as int).last() == lines[i as int]@);
            let f = split_chars(&lines[i], '\t');
            proof {
                lemma_split_nonempty(lines[i as int]@, '\t');
            }
            let ghost fs = seqs_of(f@);
            assert(fs == split_spec(recs.take(i as int).last(), '\t'));
            assert(fs.len() == f.len());
            assert(f.len() == 2 ==> fs[0] == f[0]@ && fs[1] == f[1]@);
            let is_file = f.len() == 2 && chars_eq(&f[0], &file_kw);
            let is_snap = f.len() == 2 && chars_eq(&f[0], &snap_kw);
            if !is_file && !is_snap {
                assert(mirror_records_spec(recs.take(i as int)) is None);
                proof {
                    lemma_records_none_extends(recs, i as int);
                }
                return Err(cat2("unknown record type ", debug_quote(string_of(&f[0]).as_str()).as_str()));
            }
            assert(seqs_of(f@)[1] == f[1]@);
            let id = match ContentId::from_hex_chars(&f[1]) {
                Some(id) => id,
                None => {
                    assert(mirror_records_spec(recs.take(i as int)) is None);
                    proof {
                        lemma_records_none_extends(recs, i as int);
                    }
                    return Err(cat2("malformed 64-hex id ", debug_quote(string_of(&f[1]).as_str()).as_str()));
                },
            };
            if is_file {
                if !files.insert(id) {
                    proof {
                        lemma_records_none_extends(recs, i as int);
                    }
                    return Err(cat2("duplicate file record ", string_of(&f[1]).as_str()));
                }
            } else {
                assert(f[0]@ == kw_snapshot());
                assert(kw_file() != kw_snapshot()) by {
                    assert(kw_file().len() != kw_snapshot().len());
                }
                if !snapshots.insert(id) {
                    proof {
                        lemma_records_none_extends(recs, i as int);
                    }
                    return Err(cat2("duplicate snapshot record ", string_of(&f[1]).as_str()));
                }
            }
        }
        assert(recs.take(lines.len() - 1) =~= recs);
        Ok(
            StoreMirror {
                worktree: string_of(&worktree),
                gitdir: string_of(&gitdir),
                files,
                snapshots,
            },
        )
    }
}

proof fn lemma_records_none_extends(recs: Seq<Seq<char>>, i: int)
    requires
        1 <= i <= recs.len(),
        mirror_records_spec(recs.take(i)) is None,
    ensures
        mirror_records_spec(recs) is None,
    decreases recs.len() - i,
{
    if i < recs.len() {
        assert(recs.take(i + 1).drop_last() =~= recs.take(i));
        lemma_records_none_extends(recs, i + 1);
    } else {
        assert(recs.take(i) =~= recs);
    }
}

proof fn lemma_id_line_split(kind: Seq<char>, id: Seq<u8>)
    requires
        id.len() == 32,
        !kind.contains('\t'),
        !kind.contains('\n'),
    ensures
        split_spec(id_line_spec(kind, id), '\t') == seq![kind, hex_spec(id)],
        !id_line_spec(kind, id).contains('\n'),
{
    lemma_hex_round_trip(id);
    let h = hex_spec(id);
    assert(!h.contains('\t') && !h.contains('\n')) by {
        if h.contains('\t') || h.contains('\n') {
            let k = choose|k: int| 0 <= k < h.len() && (h[k] == '\t' || h[k] == '\n');
            assert(digit_value(h[k], 16) >= 0);
        }
    }
    let ps = seq![kind, h];
    assert(pieces_free_of(ps, '\t'));
    lemma_split_join(ps, '\t');
    assert(ps.drop_last() =~= seq![kind]);
    assert(join_spec(ps.drop_last(), '\t') == kind);
    assert(ps.last() == h);
    let l = id_line_spec(kind, id);
    assert(l =~= kind.push('\t') + h);
    assert(!l.contains('\n')) by {
        if l.contains('\n') {
            let k = choose|k: int| 0 <= k < l.len() && l[k] == '\n';
            if k < kind.len() {
                assert(kind[k] == '\n');
                assert(kind.contains('\n'));
            } else if k > kind.len() {
                assert(h[k - kind.len() - 1] == '\n');
            }
        }
    }
}

proof fn lemma_sorted_last_new(ids: Seq<Seq<u8>>)
    requires
        ids.len() > 0,
        strictly_sorted(ids),
    ensures
        !ids.drop_last().to_set().contains(ids.last()),
        ids.to_set() == ids.drop_last().to_set().insert(ids.last()),
{
    let init = ids.drop_last();
    let last = ids.last();
    assert(!init.to_set().contains(last)) by {
        if init.to_set().contains(last) {
            let k = choose|k: int| 0 <= k < init.len() && init[k] == last;
            assert(bytes_lt(ids[k], ids[ids.len() - 1]));
            lemma_bytes_order(last, last, last);
        }
    }
    assert(ids.to_set() =~= init.to_set().insert(last)) by {
        assert forall|x: Seq<u8>| ids.to_set().contains(x) <==> init.to_set().insert(last).contains(x) by {
            if ids.contains(x) {
                let k = choose|k: int| 0 <= k < ids.len() && ids[k] == x;
                if k < ids.len() - 1 {
                    assert(init[k] == x);
                }
            }
            if init.contains(x) {
                let k = choose|k: int| 0 <= k < init.len() && init[k] == x;
                assert(ids[k] == x);
            }
            if x == last {
                assert(ids[ids.len() - 1] == x);
            }
        }
    }
}

/// Records for strictly increasing ids add up to the set of those ids.
#[verifier::spinoff_prover]
#[verifier::rlimit(40)]
proof fn lemma_records_of_ids(
    prefix: Seq<Seq<char>>,
    fs: Set<Seq<u8>>,
    ss: Set<Seq<u8>>,
    ids: Seq<Seq<u8>>,
    file_kind: bool,
)
    requires
        mirror_records_spec(prefix) == Some((fs, ss)),
        strictly_sorted(ids),
        forall|i: int| 0 <= i < ids.len() ==> (#[trigger] ids[i]).len() == 32,
        forall|i: int|
            0 <= i < ids.len() ==> !(if file_kind {
                fs
            } else {
                ss
            }).contains(#[trigger] ids[i]),
    ensures
        mirror_records_spec(
            prefix + id_lines_spec(
                if file_kind {
                    kw_file()
                } else {
                    kw_snapshot()
                },
                ids,
            ),
        ) == (if file_kind {
            Some((fs + ids.to_set(), ss))
        } else {
            Some((fs, ss + ids.to_set()))
        }),
    decreases ids.len(),
{
    let kind = if file_kind {
        kw_file()
    } else {
        kw_snapshot()
    };
    if ids.len() == 0 {
        assert(prefix + id_lines_spec(kind, ids) =~= prefix);
        assert(fs + ids.to_set() =~= fs);
        assert(ss + ids.to_set() =~= ss);
    } else {
        let init = ids.drop_last();
        assert(strictly_sorted(init));
        lemma_records_of_ids(prefix, fs, ss, init, file_kind);
        let all = prefix + id_lines_spec(kind, ids);
        assert(all.drop_last() =~= prefix + id_lines_spec(kind, init));
        assert(all.last() == id_line_spec(kind, ids.last()));
        lemma_keywords_plain();
        lemma_id_line_split(kind, ids.last());
        lemma_hex_round_trip(ids.last());
        assert(kw_file() != kw_snapshot()) by {
            assert(kw_file().len() != kw_snapshot().len());
        }
        let last = ids.last();
        lemma_sorted_last_new(ids);
        assert(!(if file_kind {
            fs
        } else {
            ss
        }).contains(last)) by {
            assert(ids[ids.len() - 1] == last);
        }
        if file_kind {
            assert((fs + init.to_set()).insert(last) =~= fs + ids.to_set());
        } else {
            assert((ss + init.to_set()).insert(last) =~= ss + ids.to_set());
        }
    }
}

proof fn lemma_header_line(wt: Seq<char>, gd: Seq<char>)
    requires
        wt.len() > 0,
        gd.len() > 0,
    ensures
        !mirror_header_line(wt, gd).contains('\n'),
        mirror_header_spec(mirror_header_line(wt, gd)) == Some((wt, gd)),
{
    let header = mirror_header_line(wt, gd);
    lemma_escape_framing_free(wt);
    lemma_escape_framing_free(gd);
    lemma_unescape_escape(wt);
    lemma_unescape_escape(gd);
    lemma_keywords_plain();
    let hps = seq![kw_v1(), kw_worktree(), escape_spec(wt), escape_spec(gd)];
    assert(pieces_free_of(hps, '\t'));
    lemma_split_join(hps, '\t');
    let e1 = escape_spec(wt);
    let e2 = escape_spec(gd);
    assert(hps.drop_last().drop_last().drop_last() =~= seq![kw_v1()]);
    assert(hps.drop_last().drop_last() =~= seq![kw_v1(), kw_worktree()]);
    assert(hps.drop_last() =~= seq![kw_v1(), kw_worktree(), e1]);
    let j1 = join_spec(seq![kw_v1()], '\t');
    assert(j1 == kw_v1());
    let j2 = join_spec(seq![kw_v1(), kw_worktree()], '\t');
    assert(j2 == j1.push('\t') + kw_worktree());
    let j3 = join_spec(seq![kw_v1(), kw_worktree(), e1], '\t');
    assert(j3 == j2.push('\t') + e1);
    assert(header == j3.push('\t') + e2);
    let pre = j3.push('\t');
    assert(!pre.contains('\n')) by {
        if pre.contains('\n') {
            let k = choose|k: int| 0 <= k < pre.len() && pre[k] == '\n';
            let p2 = j2.push('\t');
            if k >= p2.len() {
                assert(e1[k - p2.len()] == '\n');
            } else {
                let p1 = j1.push('\t');
                if k >= p1.len() {
                    assert(kw_worktree()[k - p1.len()] == '\n');
                } else if k < kw_v1().len() {
                    assert(kw_v1()[k] == '\n');
                }
            }
        }
    }
    assert(!header.contains('\n')) by {
        if header.contains('\n') {
            let k = choose|k: int| 0 <= k < header.len() && header[k] == '\n';
            if k < pre.len() {
                assert(pre[k] == '\n');
            } else {
                assert(e2[k - pre.len()] == '\n');
            }
        }
    }
}

proof fn lemma_mirror_lines_plain(
    wt: Seq<char>,
    gd: Seq<char>,
    files: Seq<Seq<u8>>,
    snapshots: Seq<Seq<u8>>,
)
    requires
        wt.len() > 0,
        gd.len() > 0,
        forall|i: int| 0 <= i < files.len() ==> (#[trigger] files[i]).len() == 32,
        forall|i: int| 0 <= i < snapshots.len() ==> (#[trigger] snapshots[i]).len() == 32,
    ensures
        pieces_free_of(mirror_lines_spec(wt, gd, files, snapshots), '\n'),
{
    let lines = mirror_lines_spec(wt, gd, files, snapshots);
    lemma_header_line(wt, gd);
    lemma_keywords_plain();
    assert forall|i: int| 0 <= i < lines.len() implies !(#[trigger] lines[i]).contains('\n') by {
        if i == 0 {
            assert(lines[0] == mirror_header_line(wt, gd));
        } else if i < 1 + files.len() {
            assert(lines[i] == id_line_spec(kw_file(), files[i - 1]));
            lemma_id_line_split(kw_file(), files[i - 1]);
        } else {
            assert(lines[i] == id_line_spec(kw_snapshot(), snapshots[i - 1 - files.len()]));
            lemma_id_line_split(kw_snapshot(), snapshots[i - 1 - files.len()]);
        }
    }
}

proof fn lemma_mirror_records(
    wt: Seq<char>,
    gd: Seq<char>,
    files: Seq<Seq<u8>>,
    snapshots: Seq<Seq<u8>>,
)
    requires
        strictly_sorted(files),
        strictly_sorted(snapshots),
        forall|i: int| 0 <= i < files.len() ==> (#[trigger] files[i]).len() == 32,
        forall|i: int| 0 <= i < snapshots.len() ==> (#[trigger] snapshots[i]).len() == 32,
    ensures
        mirror_records_spec(mirror_lines_spec(wt, gd, files, snapshots).drop_first()) == Some(
            (files.to_set(), snapshots.to_set()),
        ),
{
    let lines = mirror_lines_spec(wt, gd, files, snapshots);
    let recs = lines.drop_first();
    let e = Seq::<Seq<char>>::empty();
    assert(mirror_records_spec(e) == Some((Set::<Seq<u8>>::empty(), Set::<Seq<u8>>::empty())));
    lemma_records_of_ids(e, Set::empty(), Set::empty(), files, true);
    let after_files = e + id_lines_spec(kw_file(), files);
    let fset = Set::<Seq<u8>>::empty() + files.to_set();
    assert(fset =~= files.to_set());
    lemma_records_of_ids(after_files, fset, Set::empty(), snapshots, false);
    assert(recs =~= after_files + id_lines_spec(kw_snapshot(), snapshots));
    assert(Set::<Seq<u8>>::empty() + snapshots.to_set() =~= snapshots.to_set());
}

/// Text after the last newline (a torn final line) is left out of the
/// complete body.
pub proof fn lemma_complete_body_torn(text: Seq<char>, tail: Seq<char>)
    requires
        text.len() > 0,
        text.last() == '\n',
        !tail.contains('\n'),
    ensures
        complete_body(text + tail) == complete_body(text),
    decreases tail.len(),
{
    if tail.len() == 0 {
        assert(text + tail =~= text);
    } else {
        let u = text + tail;
        let t = tail.drop_last();
        assert(u.last() == tail[tail.len() - 1]);
        assert(u.drop_last() =~= text + t);
        assert(!t.contains('\n')) by {
            if t.contains('\n') {
                let k = choose|k: int| 0 <= k < t.len() && t[k] == '\n';
                assert(tail[k] == '\n');
            }
        }
        lemma_complete_body_torn(text, t);
        crate::text::lemma_last_index(u.drop_last(), '\n');
        let i = last_index_spec(u.drop_last(), '\n');
        assert(last_index_spec(u, '\n') == i);
        if i >= 0 {
            assert(u.take(i) =~= u.drop_last().take(i));
        }
    }
}

/// A torn final line does not change what a mirror file parses to.
pub proof fn lemma_mirror_torn_tail(text: Seq<char>, tail: Seq<char>)
    requires
        text.len() > 0,
        text.last() == '\n',
        !tail.contains('\n'),
    ensures
        mirror_parse_spec(text + tail) == mirror_parse_spec(text),
{
    lemma_complete_body_torn(text, tail);
}

/// Round trip: parsing a serialized mirror gives back its worktree,
/// gitdir, file set, and snapshot set.
pub proof fn lemma_mirror_round_trip(
    wt: Seq<char>,
    gd: Seq<char>,
    files: Seq<Seq<u8>>,
    snapshots: Seq<Seq<u8>>,
)
    requires
        wt.len() > 0,
        gd.len() > 0,
        strictly_sorted(files),
        strictly_sorted(snapshots),
        forall|i: int| 0 <= i < files.len() ==> (#[trigger] files[i]).len() == 32,
        forall|i: int| 0 <= i < snapshots.len() ==> (#[trigger] snapshots[i]).len() == 32,
    ensures
        mirror_parse_spec(mirror_text_spec(wt, gd, files, snapshots)) == Some(
            (wt, gd, files.to_set(), snapshots.to_set()),
        ),
{
    let lines = mirror_lines_spec(wt, gd, files, snapshots);
    lemma_header_line(wt, gd);
    lemma_mirror_lines_plain(wt, gd, files, snapshots);
    lemma_mirror_records(wt, gd, files, snapshots);
    lemma_terminated_body(lines);
    assert(lines[0] == mirror_header_line(wt, gd));
}

// ---------------------------------------------------------------------------
// Where mirrors live
// ---------------------------------------------------------------------------

/// The UTF-8 bytes hashed into a mirror key.
pub open spec fn worktree_key_bytes(worktree: Seq<char>, gitdir: Seq<char>) -> Seq<u8> {
    seq![118u8, 101u8, 114u8, 115u8, 105u8, 111u8, 110u8, 61u8, 49u8, 0u8]
        + vstd::utf8::encode_utf8(worktree) + seq![0u8] + vstd::utf8::encode_utf8(gitdir)
}

/// The mirror key: lowercase SHA-256 hex of the identity string.
pub open spec fn worktree_key_spec(worktree: Seq<char>, gitdir: Seq<char>) -> Seq<char> {
    hex_spec(spec_sha256(worktree_key_bytes(worktree, gitdir)))
}

fn extend_bytes(out: &mut Vec<u8>, b: &[u8])
    ensures
        final(out)@ == old(out)@ + b@,
{
    let ghost start = out@;
    for i in 0..b.len()
        invariant
            out@ == start + b@.take(i as int),
    {
        out.push(b[i]);
        assert(start + b@.take(i + 1) =~= (start + b@.take(i as int)).push(b@[i as int]));
    }
    assert(b@.take(b.len() as int) =~= b@);
}

/// SHA-256 hex of the canonical identity string
/// `version=1 \0 <worktree> \0 <gitdir>`. Both paths must already be
/// canonical; nothing here touches the filesystem.
pub fn worktree_key(worktree: &str, gitdir: &str) -> (r: String)
    ensures
        r@ == worktree_key_spec(worktree@, gitdir@),
{
    let mut bytes: Vec<u8> = vec![118u8, 101u8, 114u8, 115u8, 105u8, 111u8, 110u8, 61u8, 49u8, 0u8];
    extend_bytes(&mut bytes, worktree.as_bytes());
    bytes.push(0u8);
    extend_bytes(&mut bytes, gitdir.as_bytes());
    assert(bytes@ =~= worktree_key_bytes(worktree@, gitdir@));
    let digest = sha256(bytes.as_slice());
    ContentId(digest).to_string()
}

/// `<root>/worktrees/<key>.tsv` for one canonical identity.
pub open spec fn mirror_path_spec(root: Seq<char>, worktree: Seq<char>, gitdir: Seq<char>) -> Seq<
    char,
> {
    path_join(
        path_join(root, seq!['w', 'o', 'r', 'k', 't', 'r', 'e', 'e', 's']),
        worktree_key_spec(worktree, gitdir) + seq!['.', 't', 's', 'v'],
    )
}

/// Final path of the mirror for one canonicalized (worktree, gitdir)
/// pair: `<root>/worktrees/<key>.tsv`.
pub fn mirror_path(root: &str, worktree: &str, gitdir: &str) -> (r: String)
    ensures
        r@ == mirror_path_spec(root@, worktree@, gitdir@),
{
    let key = worktree_key(worktree, gitdir);
    let mut name = chars_of(key.as_str());
    name.push('.');
    name.push('t');
    name.push('s');
    name.push('v');
    let dir = join_chars_path(&chars_of(root), &vec!['w', 'o', 'r', 'k', 't', 'r', 'e', 'e', 's']);
    let p = join_chars_path(&dir, &name);
    assert(name@ =~= worktree_key_spec(worktree@, gitdir@) + seq!['.', 't', 's', 'v']);
    string_of(&p)
}


/// One mirror file found on disk.
#[derive(Debug, PartialEq, Eq)]
pub struct ReadMirror {
    /// Where the mirror file lives.
    pub path: String,
    /// Its modification time.
    pub modified: crate::stamp::Timestamp,
    /// The parsed mirror, or why it could not be parsed.
    pub mirror: Result<StoreMirror, String>,
}

impl ReadMirror {
    /// A mirror file as read: its text is parsed here.
    pub fn read(path: String, modified: crate::stamp::Timestamp, text: &str) -> (r: ReadMirror)
        ensures
            r.path == path,
            r.modified == modified,
            r.mirror is Ok <==> mirror_parse_spec(text@) is Some,
    {
        ReadMirror { path, modified, mirror: StoreMirror::parse(text) }
    }
}

} // verus!
