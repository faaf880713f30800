//! Character-sequence toolkit shared by every text format of the store:
//! field splitting, line framing, torn-tail handling, and the decimal /
//! octal number codecs. Everything is stated over `Seq<char>`, the view
//! of `String` and `str`.

use vstd::prelude::*;

verus! {

/// What `format!("{:?}", s)` renders for a string: `s` in double
/// quotes, with quotes, backslashes and non-printable characters
/// escaped.
pub uninterp spec fn debug_text(s: Seq<char>) -> Seq<char>;

/// `<str as Debug>::fmt`, the quoted and escaped rendering of `s`
/// that error messages embed.
#[verifier::external_body]
pub(crate) fn debug_quote(s: &str) -> (r: String)
    ensures
        r@ == debug_text(s@),
{
    format!("{s:?}")
}

/// `a` then `b`.
pub(crate) fn cat2(a: &str, b: &str) -> (r: String)
    ensures
        r@ == a@ + b@,
{
    let mut v = chars_of(a);
    extend_str(&mut v, b);
    string_of(&v)
}

/// `a`, `b`, then `c`.
pub(crate) fn cat3(a: &str, b: &str, c: &str) -> (r: String)
    ensures
        r@ == a@ + b@ + c@,
{
    let mut v = chars_of(a);
    extend_str(&mut v, b);
    extend_str(&mut v, c);
    string_of(&v)
}

/// `a`, `b`, `c`, then `d`.
pub(crate) fn cat4(a: &str, b: &str, c: &str, d: &str) -> (r: String)
    ensures
        r@ == a@ + b@ + c@ + d@,
{
    let mut v = chars_of(a);
    extend_str(&mut v, b);
    extend_str(&mut v, c);
    extend_str(&mut v, d);
    string_of(&v)
}

/// `String::push`: appends one character.
#[verifier::external_body]
pub(crate) fn push_char(s: &mut String, c: char)
    ensures
        final(s)@ == old(s)@.push(c),
{
    s.push(c);
}

/// The character sequences held by a vector of character vectors.
pub open spec fn vec_chars_view() -> spec_fn(Vec<char>) -> Seq<char> {
    |v: Vec<char>| v@
}

/// The character sequences of a vector of character vectors.
pub open spec fn seqs_of(v: Seq<Vec<char>>) -> Seq<Seq<char>> {
    v.map_values(vec_chars_view())
}

/// The characters of `s`, in order.
pub fn chars_of(s: &str) -> (v: Vec<char>)
    ensures
        v@ == s@,
{
    let mut v: Vec<char> = Vec::new();
    for c in it: s.chars()
        invariant
            v@ == it.seq().take(it.index() as int),
    {
        v.push(c);
    }
    v
}

/// A `String` holding exactly the characters of `v`.
pub fn string_of(v: &Vec<char>) -> (s: String)
    ensures
        s@ == v@,
{
    let mut s = String::new();
    for i in 0..v.len()
        invariant
            s@ == v@.take(i as int),
    {
        push_char(&mut s, v[i]);
        assert(v@.take(i + 1) =~= v@.take(i as int).push(v@[i as int]));
    }
    assert(v@.take(v.len() as int) =~= v@);
    s
}

/// Append the characters of `v` to the character vector `out`.
pub fn extend_chars(out: &mut Vec<char>, v: &Vec<char>)
    ensures
        final(out)@ == old(out)@ + v@,
{
    let ghost start = out@;
    for i in 0..v.len()
        invariant
            out@ == start + v@.take(i as int),
    {
        out.push(v[i]);
        assert(v@.take(i + 1) =~= v@.take(i as int).push(v@[i as int]));
        assert(start + v@.take(i + 1) =~= (start + v@.take(i as int)).push(v@[i as int]));
    }
    assert(v@.take(v.len() as int) =~= v@);
}

/// Append the characters of the string slice `t` to `out`.
pub fn extend_str(out: &mut Vec<char>, t: &str)
    ensures
        final(out)@ == old(out)@ + t@,
{
    let v = chars_of(t);
    extend_chars(out, &v);
}

/// Character-wise equality of two character vectors.
pub fn chars_eq(a: &Vec<char>, b: &Vec<char>) -> (r: bool)
    ensures
        r == (a@ == b@),
{
    if a.len() != b.len() {
        return false;
    }
    for i in 0..a.len()
        invariant
            a.len() == b.len(),
            forall|j: int| 0 <= j < i ==> a@[j] == b@[j],
    {
        if a[i] != b[i] {
            return false;
        }
    }
    assert(a@ =~= b@);
    true
}

/// Character-wise equality of a character vector and a string slice.
pub fn chars_eq_str(a: &Vec<char>, b: &str) -> (r: bool)
    ensures
        r == (a@ == b@),
{
    let bv = chars_of(b);
    chars_eq(a, &bv)
}

/// String equality, character by character.
pub fn str_eq(a: &str, b: &str) -> (r: bool)
    ensures
        r == (a@ == b@),
{
    let av = chars_of(a);
    chars_eq_str(&av, b)
}

/// The characters of `v` in the half-open range `[lo, hi)`.
pub fn slice_chars(v: &Vec<char>, lo: usize, hi: usize) -> (r: Vec<char>)
    requires
        lo <= hi <= v.len(),
    ensures
        r@ == v@.subrange(lo as int, hi as int),
{
    let mut r: Vec<char> = Vec::new();
    let mut i = lo;
    while i < hi
        invariant
            lo <= i <= hi <= v.len(),
            r@ == v@.subrange(lo as int, i as int),
        decreases hi - i,
    {
        r.push(v[i]);
        assert(v@.subrange(lo as int, i + 1) =~= v@.subrange(lo as int, i as int).push(v@[i as int]));
        i = i + 1;
    }
    r
}

// ---------------------------------------------------------------------------
// Splitting on a separator (`str::split(char)`)
// ---------------------------------------------------------------------------

/// The pieces `str::split(sep)` yields: never empty; `k` separators give
/// `k + 1` pieces, empty ones included.
pub open spec fn split_spec(s: Seq<char>, sep: char) -> Seq<Seq<char>>
    decreases s.len(),
{
    if s.len() == 0 {
        seq![Seq::<char>::empty()]
    } else {
        let init = split_spec(s.drop_last(), sep);
        if s.last() == sep {
            init.push(Seq::<char>::empty())
        } else {
            init.update(init.len() - 1, init.last().push(s.last()))
        }
    }
}

/// Pieces joined back with `sep` between consecutive ones.
pub open spec fn join_spec(ps: Seq<Seq<char>>, sep: char) -> Seq<char>
    decreases ps.len(),
{
    if ps.len() == 0 {
        Seq::<char>::empty()
    } else if ps.len() == 1 {
        ps[0]
    } else {
        join_spec(ps.drop_last(), sep).push(sep) + ps.last()
    }
}

/// True when no piece contains `sep`.
pub open spec fn pieces_free_of(ps: Seq<Seq<char>>, sep: char) -> bool {
    forall|i: int| 0 <= i < ps.len() ==> !(#[trigger] ps[i]).contains(sep)
}

pub proof fn lemma_split_nonempty(s: Seq<char>, sep: char)
    ensures
        split_spec(s, sep).len() >= 1,
    decreases s.len(),
{
    if s.len() > 0 {
        lemma_split_nonempty(s.drop_last(), sep);
    }
}

/// Splitting `a + b` where `b` holds no separator extends the last piece.
pub proof fn lemma_split_append_plain(a: Seq<char>, b: Seq<char>, sep: char)
    requires
        !b.contains(sep),
    ensures
        split_spec(a + b, sep) == split_spec(a, sep).update(
            split_spec(a, sep).len() - 1,
            split_spec(a, sep).last() + b,
        ),
    decreases b.len(),
{
    lemma_split_nonempty(a, sep);
    let sa = split_spec(a, sep);
    if b.len() == 0 {
        assert(a + b =~= a);
        assert(sa.last() + b =~= sa.last());
        assert(sa.update(sa.len() - 1, sa.last() + b) =~= sa);
    } else {
        let bd = b.drop_last();
        assert(!bd.contains(sep)) by {
            if bd.contains(sep) {
                let k = choose|k: int| 0 <= k < bd.len() && bd[k] == sep;
                assert(b[k] == sep);
            }
        }
        lemma_split_append_plain(a, bd, sep);
        lemma_split_nonempty(a + bd, sep);
        assert((a + b).drop_last() =~= a + bd);
        assert((a + b).last() == b.last());
        assert(b.last() != sep) by {
            assert(b[b.len() - 1] == b.last());
        }
        let sbd = split_spec(a + bd, sep);
        assert(sbd.last() == sa.last() + bd);
        assert((sa.last() + bd).push(b.last()) =~= sa.last() + b);
        assert(split_spec(a + b, sep) =~= sa.update(sa.len() - 1, sa.last() + b));
    }
}

/// Joining pieces that avoid `c` with a separator other than `c`
/// gives text that avoids `c`.
pub proof fn lemma_join_free(ps: Seq<Seq<char>>, sep: char, c: char)
    requires
        pieces_free_of(ps, c),
        sep != c,
    ensures
        !join_spec(ps, sep).contains(c),
    decreases ps.len(),
{
    if ps.len() == 1 {
        assert(!ps[0].contains(c));
    } else if ps.len() > 1 {
        let pd = ps.drop_last();
        assert(pieces_free_of(pd, c)) by {
            assert forall|i: int| 0 <= i < pd.len() implies !(#[trigger] pd[i]).contains(c) by {
                assert(pd[i] == ps[i]);
            }
        }
        lemma_join_free(pd, sep, c);
        let j = join_spec(pd, sep);
        let l = ps.last();
        assert(!l.contains(c)) by {
            assert(ps[ps.len() - 1] == l);
        }
        let r = j.push(sep) + l;
        assert(join_spec(ps, sep) == r);
        if r.contains(c) {
            let k = choose|k: int| 0 <= k < r.len() && r[k] == c;
            if k < j.len() {
                assert(j[k] == c);
            } else if k > j.len() {
                assert(l[k - j.len() - 1] == c);
            }
        }
    }
}

/// Text without the separator splits into itself.
pub proof fn lemma_split_plain(s: Seq<char>, sep: char)
    requires
        !s.contains(sep),
    ensures
        split_spec(s, sep) == seq![s],
{
    let e = Seq::<char>::empty();
    lemma_split_append_plain(e, s, sep);
    assert(e + s =~= s);
    assert(split_spec(e, sep) =~= seq![e]);
    assert(seq![e].update(0, e + s) =~= seq![s]);
}

/// The first piece of text holding the separator ends right before
/// its first occurrence.
pub proof fn lemma_split_first(s: Seq<char>, sep: char)
    requires
        s.contains(sep),
    ensures
        split_spec(s, sep).len() >= 2,
        split_spec(s, sep)[0].len() < s.len(),
        s[split_spec(s, sep)[0].len() as int] == sep,
        s.take(split_spec(s, sep)[0].len() as int) == split_spec(s, sep)[0],
        !split_spec(s, sep)[0].contains(sep),
    decreases s.len(),
{
    let init = s.drop_last();
    lemma_split_nonempty(init, sep);
    if init.contains(sep) {
        lemma_split_first(init, sep);
        let si = split_spec(init, sep);
        assert(s.take(si[0].len() as int) =~= init.take(si[0].len() as int));
    } else {
        lemma_split_plain(init, sep);
        assert(s.last() == sep) by {
            let k = choose|k: int| 0 <= k < s.len() && s[k] == sep;
            if k < s.len() - 1 {
                assert(init[k] == sep);
            }
        }
        assert(s.take(init.len() as int) =~= init);
    }
}

/// Splitting what was joined from separator-free pieces gives the pieces back.
pub proof fn lemma_split_join(ps: Seq<Seq<char>>, sep: char)
    requires
        ps.len() >= 1,
        pieces_free_of(ps, sep),
    ensures
        split_spec(join_spec(ps, sep), sep) == ps,
    decreases ps.len(),
{
    if ps.len() == 1 {
        let e = Seq::<char>::empty();
        assert(!ps[0].contains(sep));
        lemma_split_append_plain(e, ps[0], sep);
        assert(e + ps[0] =~= ps[0]);
        assert(split_spec(e, sep) =~= seq![e]);
        assert(e + ps[0] =~= ps[0]);
        assert(seq![e].update(0, e + ps[0]) =~= ps);
    } else {
        let pd = ps.drop_last();
        assert(pieces_free_of(pd, sep)) by {
            assert forall|i: int| 0 <= i < pd.len() implies !(#[trigger] pd[i]).contains(sep) by {
                assert(pd[i] == ps[i]);
            }
        }
        lemma_split_join(pd, sep);
        let j = join_spec(pd, sep);
        assert(!ps.last().contains(sep)) by {
            assert(ps[ps.len() - 1] == ps.last());
        }
        lemma_split_append_plain(j.push(sep), ps.last(), sep);
        lemma_split_nonempty(j, sep);
        assert(j.push(sep).drop_last() =~= j);
        let sp = split_spec(j.push(sep), sep);
        assert(sp == pd.push(Seq::<char>::empty()));
        assert(Seq::<char>::empty() + ps.last() =~= ps.last());
        assert(sp.update(sp.len() - 1, sp.last() + ps.last()) =~= ps);
    }
}

/// The pieces of `v` split on `sep`, exactly as `str::split` yields them.
pub fn split_chars(v: &Vec<char>, sep: char) -> (r: Vec<Vec<char>>)
    ensures
        seqs_of(r@) == split_spec(v@, sep),
{
    let mut done: Vec<Vec<char>> = Vec::new();
    let mut cur: Vec<char> = Vec::new();
    for i in 0..v.len()
        invariant
            seqs_of(done@).push(cur@) == split_spec(v@.take(i as int), sep),
    {
        let c = v[i];
        let ghost before = v@.take(i as int);
        assert(v@.take(i + 1).drop_last() =~= before);
        assert(v@.take(i + 1).last() == c);
        proof {
            lemma_split_nonempty(before, sep);
        }
        if c == sep {
            let finished = cur;
            cur = Vec::new();
            done.push(finished);
            assert(seqs_of(done@) =~= split_spec(before, sep));
            assert(seqs_of(done@).push(cur@) =~= split_spec(v@.take(i + 1), sep));
        } else {
            let ghost old_done = seqs_of(done@);
            cur.push(c);
            assert(seqs_of(done@).push(cur@) =~= split_spec(v@.take(i + 1), sep));
        }
    }
    assert(v@.take(v.len() as int) =~= v@);
    let ghost dd = seqs_of(done@);
    let ghost cv = cur@;
    done.push(cur);
    assert(seqs_of(done@) =~= dd.push(cv));
    done
}

/// `join_spec` computed: pieces joined with `sep`.
pub fn join_chars(ps: &Vec<Vec<char>>, sep: char) -> (r: Vec<char>)
    ensures
        r@ == join_spec(seqs_of(ps@), sep),
{
    let mut out: Vec<char> = Vec::new();
    for i in 0..ps.len()
        invariant
            out@ == join_spec(seqs_of(ps@).take(i as int), sep),
    {
        let ghost t = seqs_of(ps@).take(i + 1);
        assert(t.drop_last() =~= seqs_of(ps@).take(i as int));
        assert(t.last() == ps[i as int]@);
        if i > 0 {
            out.push(sep);
        } else {
            assert(out@ =~= Seq::<char>::empty());
        }
        extend_chars(&mut out, &ps[i]);
        if i == 0 {
            assert(out@ =~= join_spec(t, sep));
        }
    }
    assert(seqs_of(ps@).take(ps.len() as int) =~= seqs_of(ps@));
    out
}

// ---------------------------------------------------------------------------
// Searching
// ---------------------------------------------------------------------------

/// Index of the last occurrence of `c` in `s`, or -1.
pub open spec fn last_index_spec(s: Seq<char>, c: char) -> int
    decreases s.len(),
{
    if s.len() == 0 {
        -1
    } else if s.last() == c {
        s.len() - 1
    } else {
        last_index_spec(s.drop_last(), c)
    }
}

pub proof fn lemma_last_index(s: Seq<char>, c: char)
    ensures
        -1 <= last_index_spec(s, c) < s.len(),
        last_index_spec(s, c) >= 0 ==> s[last_index_spec(s, c)] == c,
        forall|j: int| last_index_spec(s, c) < j < s.len() ==> s[j] != c,
    decreases s.len(),
{
    if s.len() > 0 && s.last() != c {
        lemma_last_index(s.drop_last(), c);
        assert forall|j: int| last_index_spec(s, c) < j < s.len() implies s[j] != c by {
            if j < s.len() - 1 {
                assert(s[j] == s.drop_last()[j]);
            }
        }
    }
}

/// Where `c` last occurs in `v` (`str::rfind(char)`).
pub fn rfind_char(v: &Vec<char>, c: char) -> (r: Option<usize>)
    ensures
        match r {
            Some(i) => i as int == last_index_spec(v@, c),
            None => last_index_spec(v@, c) == -1,
        },
{
    let mut i = v.len();
    assert(v@.take(i as int) =~= v@);
    while i > 0
        invariant
            i <= v.len(),
            last_index_spec(v@, c) == last_index_spec(v@.take(i as int), c),
        decreases i,
    {
        assert(v@.take(i as int).drop_last() =~= v@.take(i - 1));
        assert(v@.take(i as int).last() == v@[i - 1]);
        if v[i - 1] == c {
            return Some(i - 1);
        }
        i = i - 1;
    }
    None
}

/// True when `s` contains the character `c`.
pub fn contains_char(v: &Vec<char>, c: char) -> (r: bool)
    ensures
        r == v@.contains(c),
{
    for i in 0..v.len()
        invariant
            forall|j: int| 0 <= j < i ==> v@[j] != c,
    {
        if v[i] == c {
            return true;
        }
    }
    false
}

/// `s` starts with `p`.
pub open spec fn starts_with_spec(s: Seq<char>, p: Seq<char>) -> bool {
    p.len() <= s.len() && s.take(p.len() as int) == p
}

/// `p` occurs somewhere inside `s` (`str::contains(&str)`).
pub open spec fn contains_seq_spec(s: Seq<char>, p: Seq<char>) -> bool {
    exists|i: int| 0 <= i && i + p.len() <= s.len() && #[trigger] s.subrange(i, i + p.len()) == p
}

/// Does `p` occur in `v` at position `at`?
pub fn occurs_at(v: &Vec<char>, p: &Vec<char>, at: usize) -> (r: bool)
    requires
        at <= v.len(),
    ensures
        r == (at + p.len() <= v.len() && v@.subrange(at as int, at + p.len()) == p@),
{
    if p.len() > v.len() - at {
        return false;
    }
    for k in 0..p.len()
        invariant
            at + p.len() <= v.len(),
            forall|j: int| 0 <= j < k ==> v@[at + j] == p@[j],
    {
        if v[at + k] != p[k] {
            assert(v@.subrange(at as int, at + p.len())[k as int] != p@[k as int]);
            return false;
        }
    }
    assert(v@.subrange(at as int, at + p.len()) =~= p@);
    true
}

/// `str::starts_with(&str)`.
pub fn starts_with(v: &Vec<char>, p: &str) -> (r: bool)
    ensures
        r == starts_with_spec(v@, p@),
{
    let pv = chars_of(p);
    let r = occurs_at(v, &pv, 0);
    assert(v@.subrange(0, pv.len() as int) =~= v@.take(pv.len() as int));
    r
}

/// First position at which `p` occurs in `v`, if any.
pub fn find_seq(v: &Vec<char>, p: &Vec<char>) -> (r: Option<usize>)
    ensures
        match r {
            Some(i) => i + p.len() <= v.len() && v@.subrange(i as int, i + p.len()) == p@
                && forall|j: int|
                0 <= j < i ==> #[trigger] v@.subrange(j, j + p.len()) != p@,
            None => !contains_seq_spec(v@, p@),
        },
{
    for i in 0..v.len()
        invariant
            forall|j: int| 0 <= j < i && j + p.len() <= v.len() ==> #[trigger] v@.subrange(j, j + p.len()) != p@,
    {
        if occurs_at(v, p, i) {
            return Some(i);
        }
    }
    if occurs_at(v, p, v.len()) {
        return Some(v.len());
    }
    assert(!contains_seq_spec(v@, p@)) by {
        if contains_seq_spec(v@, p@) {
            let j = choose|j: int| 0 <= j && j + p@.len() <= v@.len() && #[trigger] v@.subrange(j, j + p@.len()) == p@;
            assert(j <= v.len());
        }
    }
    None
}

/// `str::contains(&str)`.
pub fn contains_str(v: &Vec<char>, p: &str) -> (r: bool)
    ensures
        r == contains_seq_spec(v@, p@),
{
    let pv = chars_of(p);
    match find_seq(v, &pv) {
        Some(_) => true,
        None => false,
    }
}

// ---------------------------------------------------------------------------
// Line framing
// ---------------------------------------------------------------------------

/// `line` with one trailing `'\r'` removed, if present.
pub open spec fn strip_cr(line: Seq<char>) -> Seq<char> {
    if line.len() > 0 && line.last() == '\r' {
        line.drop_last()
    } else {
        line
    }
}

/// What `str::lines` yields: lines end at `'\n'` (with a `'\r'` before it
/// removed), a final line without terminator counts, an empty final
/// piece does not.
pub open spec fn strip_cr_fn() -> spec_fn(Seq<char>) -> Seq<char> {
    |l: Seq<char>| strip_cr(l)
}

/// Keeps lines that are not empty.
pub open spec fn nonempty_fn() -> spec_fn(Seq<char>) -> bool {
    |l: Seq<char>| l.len() > 0
}

pub open spec fn lines_spec(s: Seq<char>) -> Seq<Seq<char>> {
    let p = split_spec(s, '\n');
    let terminated = p.drop_last().map_values(strip_cr_fn());
    if p.last().len() == 0 {
        terminated
    } else {
        terminated.push(p.last())
    }
}

fn strip_cr_exec(line: Vec<char>) -> (r: Vec<char>)
    ensures
        r@ == strip_cr(line@),
{
    let mut line = line;
    if line.len() > 0 && line[line.len() - 1] == '\r' {
        line.pop();
    }
    line
}

/// The lines of `v` (`str::lines`).
pub fn lines_of(v: &Vec<char>) -> (r: Vec<Vec<char>>)
    ensures
        seqs_of(r@) == lines_spec(v@),
{
    let pieces = split_chars(v, '\n');
    proof {
        lemma_split_nonempty(v@, '\n');
    }
    let n = pieces.len();
    let mut out: Vec<Vec<char>> = Vec::new();
    let ghost p = split_spec(v@, '\n');
    for i in 0..n - 1
        invariant
            n == pieces.len(),
            n >= 1,
            seqs_of(pieces@) == p,
            seqs_of(out@) == p.take(i as int).map_values(strip_cr_fn()),
    {
        let piece = pieces[i].clone();
        assert(piece@ == p[i as int]);
        let stripped = strip_cr_exec(piece);
        let ghost before = seqs_of(out@);
        out.push(stripped);
        assert(seqs_of(out@) =~= before.push(strip_cr(p[i as int])));
        assert(seqs_of(out@) =~= p.take(i + 1).map_values(strip_cr_fn()));
    }
    assert(p.take(n - 1) =~= p.drop_last());
    if pieces[n - 1].len() > 0 {
        out.push(pieces[n - 1].clone());
        assert(seqs_of(out@) =~= lines_spec(v@));
    } else {
        assert(seqs_of(out@) =~= lines_spec(v@));
    }
    out
}

/// The complete part of a record file: everything before the last
/// `'\n'`; `None` when no line was ever terminated. Whatever follows the
/// last newline is a torn append and is not a record.
pub open spec fn complete_body(s: Seq<char>) -> Option<Seq<char>> {
    let i = last_index_spec(s, '\n');
    if i < 0 {
        None
    } else {
        Some(s.take(i))
    }
}

/// `complete_body` computed.
pub fn complete_body_of(v: &Vec<char>) -> (r: Option<Vec<char>>)
    ensures
        match r {
            Some(b) => complete_body(v@) == Some(b@),
            None => complete_body(v@) is None,
        },
{
    proof {
        lemma_last_index(v@, '\n');
    }
    match rfind_char(v, '\n') {
        Some(i) => {
            let b = slice_chars(v, 0, i);
            assert(b@ =~= v@.take(i as int));
            Some(b)
        },
        None => None,
    }
}

/// The non-empty lines of the complete part of a record file, as every
/// tolerant loader of the store reads them.
pub open spec fn record_lines(s: Seq<char>) -> Seq<Seq<char>> {
    match complete_body(s) {
        Some(body) => split_spec(body, '\n').filter(nonempty_fn()),
        None => Seq::empty(),
    }
}

/// Appending one complete, non-empty line to text whose last line is
/// complete appends that line to its records.
pub proof fn lemma_record_lines_append(j: Seq<char>, l: Seq<char>)
    requires
        j.len() == 0 || j.last() == '\n',
        l.len() > 0,
        !l.contains('\n'),
    ensures
        record_lines(j + l.push('\n')) == record_lines(j).push(l),
{
    let t = j + l.push('\n');
    assert(t.last() == '\n');
    assert(last_index_spec(t, '\n') == t.len() - 1);
    assert(t.take(t.len() - 1) =~= j + l);
    lemma_split_append_plain(j, l, '\n');
    if j.len() == 0 {
        assert(j + l =~= l);
        lemma_split_plain(l, '\n');
        assert(split_spec(j, '\n') =~= seq![Seq::<char>::empty()]);
        assert(complete_body(j) is None);
        reveal(Seq::filter);
        assert(seq![l].filter(nonempty_fn()) =~= seq![l]) by {
            assert(seq![l].drop_last() =~= Seq::<Seq<char>>::empty());
        }
        assert(split_spec(j + l, '\n') =~= seq![l]);
    } else {
        let b = j.drop_last();
        assert(last_index_spec(j, '\n') == j.len() - 1);
        assert(j.take(j.len() - 1) =~= b);
        let sb = split_spec(b, '\n');
        assert(split_spec(j, '\n') == sb.push(Seq::<char>::empty()));
        assert(Seq::<char>::empty() + l =~= l);
        assert(split_spec(j + l, '\n') =~= sb.push(l));
        sb.lemma_filter_push(l, nonempty_fn());
    }
}

/// `record_lines` computed.
pub fn record_lines_of(v: &Vec<char>) -> (r: Vec<Vec<char>>)
    ensures
        seqs_of(r@) == record_lines(v@),
{
    match complete_body_of(v) {
        None => Vec::new(),
        Some(body) => {
            let pieces = split_chars(&body, '\n');
            let ghost p = seqs_of(pieces@);
            let mut out: Vec<Vec<char>> = Vec::new();
            for i in 0..pieces.len()
                invariant
                    p == seqs_of(pieces@),
                    seqs_of(out@) == p.take(i as int).filter(nonempty_fn()),
            {
                proof {
                    p.take(i as int).lemma_filter_push(p[i as int], nonempty_fn());
                    assert(p.take(i as int).push(p[i as int]) =~= p.take(i + 1));
                }
                assert(pieces[i as int]@ == p[i as int]);
                if pieces[i].len() > 0 {
                    out.push(pieces[i].clone());
                    assert(seqs_of(out@) =~= p.take(i + 1).filter(nonempty_fn()));
                } else {
                    assert(seqs_of(out@) =~= p.take(i + 1).filter(nonempty_fn()));
                }
            }
            assert(p.take(pieces.len() as int) =~= p);
            out
        },
    }
}

// ---------------------------------------------------------------------------
// Unsigned integers in decimal and other radixes
// ---------------------------------------------------------------------------

/// Value of one digit character in radix `r` (2..=16); -1 when `c` is not
/// a digit of that radix. Hex digits accept both cases.
pub open spec fn digit_value(c: char, r: nat) -> int {
    let v: int = if '0' <= c && c <= '9' {
        c as int - '0' as int
    } else if 'a' <= c && c <= 'f' {
        c as int - 'a' as int + 10
    } else if 'A' <= c && c <= 'F' {
        c as int - 'A' as int + 10
    } else {
        -1
    };
    if 0 <= v < r {
        v
    } else {
        -1
    }
}

/// Every character of `s` is a digit of radix `r`.
pub open spec fn all_digits(s: Seq<char>, r: nat) -> bool {
    forall|i: int| 0 <= i < s.len() ==> digit_value(#[trigger] s[i], r) >= 0
}

/// The number a digit string spells in radix `r`.
pub open spec fn digits_value(s: Seq<char>, r: nat) -> nat
    decreases s.len(),
{
    if s.len() == 0 {
        0
    } else {
        digits_value(s.drop_last(), r) * r + (digit_value(s.last(), r) as nat)
    }
}

/// What `uN::from_str_radix(s, r)` returns for an unsigned type whose
/// largest value is `max`: an optional leading `'+'` (never alone), then
/// one or more digits, and a value that fits.
pub open spec fn parse_uint_spec(s: Seq<char>, r: nat, max: nat) -> Option<nat> {
    let d = if s.len() > 1 && s[0] == '+' {
        s.drop_first()
    } else {
        s
    };
    if d.len() > 0 && all_digits(d, r) && digits_value(d, r) <= max {
        Some(digits_value(d, r))
    } else {
        None
    }
}

/// `u64::from_str` (decimal).
pub open spec fn parse_u64_spec(s: Seq<char>) -> Option<nat> {
    parse_uint_spec(s, 10, u64::MAX as nat)
}

/// `u32::from_str` (decimal).
pub open spec fn parse_u32_spec(s: Seq<char>) -> Option<nat> {
    parse_uint_spec(s, 10, u32::MAX as nat)
}

pub proof fn lemma_digits_value_prefix_le(s: Seq<char>, k: int, r: nat)
    requires
        0 <= k <= s.len(),
        r >= 1,
        all_digits(s, r),
    ensures
        digits_value(s.take(k), r) <= digits_value(s, r),
    decreases s.len() - k,
{
    if k < s.len() {
        lemma_digits_value_prefix_le(s, k + 1, r);
        let t = s.take(k + 1);
        assert(t.drop_last() =~= s.take(k));
        assert(t.last() == s[k]);
        assert(digit_value(s[k], r) >= 0);
        let a = digits_value(s.take(k), r);
        assert(a * r >= a) by (nonlinear_arith)
            requires
                r >= 1,
        ;
    } else {
        assert(s.take(k) =~= s);
    }
}

fn digit_of(c: char, r: u32) -> (d: Option<u32>)
    requires
        2 <= r <= 16,
    ensures
        match d {
            Some(v) => digit_value(c, r as nat) == v as int && v < r,
            None => digit_value(c, r as nat) == -1,
        },
{
    let v: u32 = if '0' <= c && c <= '9' {
        (c as u32) - ('0' as u32)
    } else if 'a' <= c && c <= 'f' {
        (c as u32) - ('a' as u32) + 10
    } else if 'A' <= c && c <= 'F' {
        (c as u32) - ('A' as u32) + 10
    } else {
        return None;
    };
    if v < r {
        Some(v)
    } else {
        None
    }
}

/// `from_str_radix` for an unsigned integer type bounded by `max`.
pub fn parse_uint(v: &Vec<char>, r: u32, max: u64) -> (res: Option<u64>)
    requires
        2 <= r <= 16,
    ensures
        match res {
            Some(n) => parse_uint_spec(v@, r as nat, max as nat) == Some(n as nat),
            None => parse_uint_spec(v@, r as nat, max as nat) is None,
        },
{
    let start: usize = if v.len() > 1 && v[0] == '+' {
        1
    } else {
        0
    };
    let ghost d = if v@.len() > 1 && v@[0] == '+' {
        v@.drop_first()
    } else {
        v@
    };
    assert(d =~= v@.skip(start as int));
    if start >= v.len() {
        assert(parse_uint_spec(v@, r as nat, max as nat) is None);
        return None;
    }
    let mut acc: u64 = 0;
    let mut i = start;
    while i < v.len()
        invariant
            start <= i <= v.len(),
            d == v@.skip(start as int),
            d == (if v@.len() > 1 && v@[0] == '+' {
                v@.drop_first()
            } else {
                v@
            }),
            2 <= r <= 16,
            acc as nat == digits_value(d.take(i - start), r as nat),
            acc <= max,
            all_digits(d.take(i - start), r as nat),
        decreases v.len() - i,
    {
        let k: usize = i - start;
        let ghost t = d.take(k + 1);
        assert(t.drop_last() =~= d.take(k as int));
        assert(t.last() == v@[i as int]);
        match digit_of(v[i], r) {
            None => {
                assert(!all_digits(d, r as nat)) by {
                    assert(d[k as int] == v@[i as int]);
                }
                assert(parse_uint_spec(v@, r as nat, max as nat) is None);
                return None;
            },
            Some(dv) => {
                assert(all_digits(t, r as nat)) by {
                    assert forall|j: int| 0 <= j < t.len() implies digit_value(#[trigger] t[j], r as nat) >= 0 by {
                        if j < k {
                            assert(t[j] == d.take(k as int)[j]);
                        }
                    }
                }
                if dv as u64 > max || acc > (max - dv as u64) / (r as u64) {
                    // acc * r + dv > max: the whole value exceeds max too.
                    assert(acc * r + dv > max) by (nonlinear_arith)
                        requires
                            dv > max || acc > (max - dv) / (r as int),
                            r >= 2,
                            acc >= 0,
                    ;
                    assert(digits_value(t, r as nat) == acc * r + dv);
                    proof {
                        if all_digits(d, r as nat) {
                            lemma_digits_value_prefix_le(d, k + 1, r as nat);
                        }
                    }
                    assert(parse_uint_spec(v@, r as nat, max as nat) is None);
                    return None;
                }
                assert(acc * r + dv <= max) by (nonlinear_arith)
                    requires
                        acc <= (max - dv) / (r as int),
                        r >= 2,
                        dv <= max,
                ;
                acc = acc * (r as u64) + dv as u64;
            },
        }
        i = i + 1;
    }
    assert(d.take(v.len() - start) =~= d);
    Some(acc)
}

/// `u64::from_str`.
pub fn parse_u64(v: &Vec<char>) -> (res: Option<u64>)
    ensures
        match res {
            Some(n) => parse_u64_spec(v@) == Some(n as nat),
            None => parse_u64_spec(v@) is None,
        },
{
    parse_uint(v, 10, u64::MAX)
}

/// `u32::from_str`.
pub fn parse_u32(v: &Vec<char>) -> (res: Option<u32>)
    ensures
        match res {
            Some(n) => parse_u32_spec(v@) == Some(n as nat),
            None => parse_u32_spec(v@) is None,
        },
{
    match parse_uint(v, 10, u32::MAX as u64) {
        Some(n) => Some(n as u32),
        None => None,
    }
}

/// Digit strings hold none of the separators the record formats use.
pub proof fn lemma_digits_plain(s: Seq<char>, r: nat)
    requires
        all_digits(s, r),
    ensures
        !s.contains('\t'),
        !s.contains('\n'),
        !s.contains('\r'),
        !s.contains(','),
        !s.contains(' '),
        !s.contains('%'),
{
    assert forall|c: char| s.contains(c) implies digit_value(c, r) >= 0 by {
        let k = choose|k: int| 0 <= k < s.len() && s[k] == c;
        assert(digit_value(s[k], r) >= 0);
    }
    assert(digit_value('\t', r) < 0);
    assert(digit_value('\n', r) < 0);
    assert(digit_value('\r', r) < 0);
    assert(digit_value(',', r) < 0);
    assert(digit_value(' ', r) < 0);
    assert(digit_value('%', r) < 0);
}

/// The digit character for `d` (lowercase beyond 9).
pub open spec fn digit_char(d: nat) -> char {
    if d < 10 {
        ((d + '0' as nat) as u8) as char
    } else {
        ((d - 10 + 'a' as nat) as u8) as char
    }
}

/// How `uN::to_string` (radix 10) or `{:o}` (radix 8) render `n`: no
/// leading zeros, `"0"` for zero.
pub open spec fn fmt_uint_spec(n: nat, r: nat) -> Seq<char>
    decreases n,
{
    if r < 2 || n < r {
        seq![digit_char(n)]
    } else {
        proof {
            assert(n / r < n) by (nonlinear_arith)
                requires
                    n >= r,
                    r >= 2,
            ;
        }
        fmt_uint_spec(n / r, r).push(digit_char(n % r))
    }
}

/// `u64::to_string`.
pub open spec fn dec_spec(n: nat) -> Seq<char> {
    fmt_uint_spec(n, 10)
}

pub proof fn lemma_digit_char(d: nat, r: nat)
    requires
        2 <= r <= 16,
        d < r,
    ensures
        digit_value(digit_char(d), r) == d,
{
}

/// Rendering then parsing gives the number back; renderings are digit
/// strings that never start with `'+'`.
pub proof fn lemma_fmt_uint(n: nat, r: nat)
    requires
        2 <= r <= 16,
    ensures
        fmt_uint_spec(n, r).len() > 0,
        all_digits(fmt_uint_spec(n, r), r),
        digits_value(fmt_uint_spec(n, r), r) == n,
        fmt_uint_spec(n, r)[0] != '+',
    decreases n,
{
    if n < r {
        lemma_digit_char(n, r);
        let s = fmt_uint_spec(n, r);
        assert(s.drop_last() =~= Seq::<char>::empty());
        assert(s.last() == digit_char(n));
        assert(digits_value(s.drop_last(), r) == 0);
        assert(digits_value(s, r) == digits_value(s.drop_last(), r) * r + (digit_value(s.last(), r) as nat));
        assert(0 * r == 0);
    } else {
        assert(n / r < n) by (nonlinear_arith)
            requires
                n >= r,
                r >= 2,
        ;
        lemma_fmt_uint(n / r, r);
        let p = fmt_uint_spec(n / r, r);
        let s = fmt_uint_spec(n, r);
        assert(n % r < r) by (nonlinear_arith)
            requires
                r >= 2,
        ;
        lemma_digit_char(n % r, r);
        assert(s.drop_last() =~= p);
        assert(s.last() == digit_char(n % r));
        assert(s[0] == p[0]);
        assert forall|i: int| 0 <= i < s.len() implies digit_value(#[trigger] s[i], r) >= 0 by {
            if i < p.len() {
                assert(s[i] == p[i]);
            }
        }
        assert((n / r) * r + n % r == n) by (nonlinear_arith)
            requires
                r >= 2,
        ;
        assert(digits_value(s, r) == digits_value(s.drop_last(), r) * r + (digit_value(s.last(), r) as nat));
    }
}

/// Parsing a rendering gives the number back.
pub proof fn lemma_parse_fmt(n: nat, r: nat, max: nat)
    requires
        2 <= r <= 16,
        n <= max,
    ensures
        parse_uint_spec(fmt_uint_spec(n, r), r, max) == Some(n),
{
    lemma_fmt_uint(n, r);
}

/// Render `n` in radix `r`.
pub fn fmt_uint(n: u64, r: u64) -> (v: Vec<char>)
    requires
        2 <= r <= 16,
    ensures
        v@ == fmt_uint_spec(n as nat, r as nat),
    decreases n,
{
    if n < r {
        let c = digit_char_exec(n as u8);
        let mut v = Vec::new();
        v.push(c);
        assert(v@ =~= fmt_uint_spec(n as nat, r as nat));
        v
    } else {
        assert(n / r < n) by (nonlinear_arith)
            requires
                n >= r,
                r >= 2,
        ;
        let mut v = fmt_uint(n / r, r);
        assert(n % r < r) by (nonlinear_arith)
            requires
                r >= 2,
        ;
        let c = digit_char_exec((n % r) as u8);
        v.push(c);
        v
    }
}

fn digit_char_exec(d: u8) -> (c: char)
    requires
        d < 16,
    ensures
        c == digit_char(d as nat),
{
    if d < 10 {
        (d + 48u8) as char
    } else {
        (d - 10 + 97u8) as char
    }
}

/// `u64::to_string` as characters.
pub fn dec_chars(n: u64) -> (v: Vec<char>)
    ensures
        v@ == dec_spec(n as nat),
{
    fmt_uint(n, 10)
}

} // verus!
