//! Lockfile dependency safety: whether a project lockfile pins every
//! dependency to an immutable source, and the content address of a
//! lockfile.

use vstd::prelude::*;

use crate::hash::{sha256, spec_sha256};
use crate::text::{
    chars_of, contains_char, contains_seq_spec, contains_str, find_seq, lines_of, lines_spec,
    seqs_of, starts_with, starts_with_spec,
};
use crate::ContentId;

verus! {

/// Classification of dependency safety within a project lockfile.
#[derive(Debug, Clone, Copy, PartialEq, Eq, Structural)]
pub enum DependencySafety {
    /// All dependencies are strictly pinned to immutable sources.
    Pinned,
    /// The lockfile holds local mutable references (`file:`, `link:`,
    /// `workspace:`, local paths, or git references without a commit).
    Mutable,
}

/// The SHA-256 content address of a lockfile.
pub fn hash_lockfile(bytes: &[u8]) -> (r: ContentId)
    ensures
        r.0@ == spec_sha256(bytes@),
{
    ContentId(sha256(bytes))
}

// ---------------------------------------------------------------------------
// Character classes and trimming
// ---------------------------------------------------------------------------

/// Unicode white space, as `char::is_whitespace` decides it.
pub open spec fn is_ws(c: char) -> bool {
    c == ' ' || ('\t' <= c && c <= '\r') || c == '\u{85}' || c == '\u{a0}' || c == '\u{1680}' || (
    '\u{2000}' <= c && c <= '\u{200a}') || c == '\u{2028}' || c == '\u{2029}' || c == '\u{202f}'
        || c == '\u{205f}' || c == '\u{3000}'
}

/// ASCII letters and digits.
pub open spec fn is_alnum(c: char) -> bool {
    ('0' <= c && c <= '9') || ('a' <= c && c <= 'z') || ('A' <= c && c <= 'Z')
}

/// ASCII hex digits.
pub open spec fn is_hexdigit(c: char) -> bool {
    ('0' <= c && c <= '9') || ('a' <= c && c <= 'f') || ('A' <= c && c <= 'F')
}

/// The characters that end a commit value.
pub open spec fn is_stop(c: char) -> bool {
    c == '"' || c == '\'' || c == ' ' || c == ',' || c == ')' || c == '}' || c == '\r' || c == '\n'
}

/// `s` without leading characters that satisfy `p`.
pub open spec fn trim_front(s: Seq<char>, ws: bool) -> Seq<char>
    decreases s.len(),
{
    if s.len() > 0 && (if ws {
        is_ws(s[0])
    } else {
        !is_alnum(s[0])
    }) {
        trim_front(s.drop_first(), ws)
    } else {
        s
    }
}

/// `s` without trailing characters of the class.
pub open spec fn trim_back(s: Seq<char>, ws: bool) -> Seq<char>
    decreases s.len(),
{
    if s.len() > 0 && (if ws {
        is_ws(s.last())
    } else {
        !is_alnum(s.last())
    }) {
        trim_back(s.drop_last(), ws)
    } else {
        s
    }
}

/// `str::trim`: white space removed from both ends.
pub open spec fn trim_spec(s: Seq<char>) -> Seq<char> {
    trim_back(trim_front(s, true), true)
}

/// Text that neither begins nor ends in whitespace trims to itself.
pub proof fn lemma_trim_plain(s: Seq<char>)
    requires
        s.len() > 0,
        !is_ws(s[0]),
        !is_ws(s.last()),
    ensures
        trim_spec(s) == s,
{
}

/// Such text with a newline after it trims to the text.
pub proof fn lemma_trim_plain_nl(s: Seq<char>)
    requires
        s.len() > 0,
        !is_ws(s[0]),
        !is_ws(s.last()),
    ensures
        trim_spec(s.push('\n')) == s,
{
    let t = s.push('\n');
    assert(t[0] == s[0]);
    assert(trim_front(t, true) == t);
    assert(t.drop_last() =~= s);
    assert(trim_back(t, true) == trim_back(s, true));
}

/// The text before the first stop character.
pub open spec fn first_piece(s: Seq<char>) -> Seq<char>
    decreases s.len(),
{
    if s.len() == 0 || is_stop(s[0]) {
        Seq::empty()
    } else {
        seq![s[0]] + first_piece(s.drop_first())
    }
}

/// A commit value: non-alphanumerics trimmed from both ends, then cut
/// at the first stop character.
pub open spec fn clean_spec(s: Seq<char>) -> Seq<char> {
    first_piece(trim_back(trim_front(s, false), false))
}

/// A full commit hash: 40 or 64 hex digits.
pub open spec fn is_commit_hash(s: Seq<char>) -> bool {
    (s.len() == 40 || s.len() == 64) && forall|i: int| 0 <= i < s.len() ==> is_hexdigit(#[trigger] s[i])
}

/// Position of the first occurrence of `p` in `s`.
pub open spec fn first_at(s: Seq<char>, p: Seq<char>, i: int) -> bool {
    &&& 0 <= i && i + p.len() <= s.len()
    &&& s.subrange(i, i + p.len()) == p
    &&& forall|j: int| 0 <= j < i ==> #[trigger] s.subrange(j, j + p.len()) != p
}

/// `str::split_once`: the text after the first occurrence of `p`.
pub open spec fn after_first(s: Seq<char>, p: Seq<char>) -> Option<Seq<char>> {
    if contains_seq_spec(s, p) {
        let i = choose|i: int| first_at(s, p, i);
        Some(s.skip(i + p.len()))
    } else {
        None
    }
}

proof fn lemma_first_at_unique(s: Seq<char>, p: Seq<char>, i: int, k: int)
    requires
        first_at(s, p, i),
        first_at(s, p, k),
    ensures
        i == k,
{
    if i < k {
        assert(s.subrange(i, i + p.len()) == p);
    } else if k < i {
        assert(s.subrange(k, k + p.len()) == p);
    }
}

/// The text after the first `p` in `v`, as [`after_first`] states.
fn split_after(v: &Vec<char>, p: &str) -> (r: Option<Vec<char>>)
    ensures
        match r {
            Some(x) => after_first(v@, p@) == Some(x@),
            None => after_first(v@, p@) is None,
        },
{
    let pv = chars_of(p);
    match find_seq(v, &pv) {
        Some(i) => {
            proof {
                assert(first_at(v@, p@, i as int));
                let k = choose|k: int| first_at(v@, p@, k);
                lemma_first_at_unique(v@, p@, i as int, k);
                assert(contains_seq_spec(v@, p@));
            }
            let x = crate::text::slice_chars(v, i + pv.len(), v.len());
            assert(x@ =~= v@.skip(i + pv.len()));
            Some(x)
        },
        None => None,
    }
}

pub(crate) fn trim_exec(v: &Vec<char>, ws: bool) -> (r: Vec<char>)
    ensures
        r@ == trim_back(trim_front(v@, ws), ws),
{
    let mut lo: usize = 0;
    assert(v@.skip(0) =~= v@);
    while lo < v.len() && in_class(v[lo], ws)
        invariant
            lo <= v.len(),
            trim_front(v@.skip(lo as int), ws) == trim_front(v@, ws),
        decreases v.len() - lo,
    {
        assert(v@.skip(lo as int).drop_first() =~= v@.skip(lo + 1));
        lo = lo + 1;
    }
    assert(trim_front(v@.skip(lo as int), ws) == v@.skip(lo as int));
    let mut hi: usize = v.len();
    while hi > lo && in_class(v[hi - 1], ws)
        invariant
            lo <= hi <= v.len(),
            trim_back(v@.subrange(lo as int, hi as int), ws) == trim_back(v@.skip(lo as int), ws),
        decreases hi - lo,
    {
        assert(v@.subrange(lo as int, hi as int).drop_last() =~= v@.subrange(lo as int, hi - 1));
        hi = hi - 1;
    }
    assert(v@.skip(lo as int) =~= v@.subrange(lo as int, v.len() as int));
    let r = crate::text::slice_chars(v, lo, hi);
    r
}

fn in_class(c: char, ws: bool) -> (b: bool)
    ensures
        b == (if ws {
            is_ws(c)
        } else {
            !is_alnum(c)
        }),
{
    if ws {
        is_ws_exec(c)
    } else {
        !is_alnum_exec(c)
    }
}

pub(crate) fn is_ws_exec(c: char) -> (b: bool)
    ensures
        b == is_ws(c),
{
    c == ' ' || ('\t' <= c && c <= '\r') || c == '\u{85}' || c == '\u{a0}' || c == '\u{1680}' || (
    '\u{2000}' <= c && c <= '\u{200a}') || c == '\u{2028}' || c == '\u{2029}' || c == '\u{202f}'
        || c == '\u{205f}' || c == '\u{3000}'
}

fn is_alnum_exec(c: char) -> (b: bool)
    ensures
        b == is_alnum(c),
{
    ('0' <= c && c <= '9') || ('a' <= c && c <= 'z') || ('A' <= c && c <= 'Z')
}

fn is_stop_exec(c: char) -> (b: bool)
    ensures
        b == is_stop(c),
{
    c == '"' || c == '\'' || c == ' ' || c == ',' || c == ')' || c == '}' || c == '\r' || c == '\n'
}

fn clean_exec(v: &Vec<char>) -> (r: Vec<char>)
    ensures
        r@ == clean_spec(v@),
{
    let t = trim_exec(v, false);
    let mut k: usize = 0;
    assert(t@.skip(0) =~= t@);
    assert(t@.take(0) + first_piece(t@) =~= first_piece(t@));
    while k < t.len() && !is_stop_exec(t[k])
        invariant
            k <= t.len(),
            first_piece(t@) == t@.take(k as int) + first_piece(t@.skip(k as int)),
        decreases t.len() - k,
    {
        assert(t@.skip(k as int).drop_first() =~= t@.skip(k + 1));
        assert(t@.take(k + 1) =~= t@.take(k as int) + seq![t@[k as int]]);
        k = k + 1;
    }
    assert(first_piece(t@.skip(k as int)) =~= Seq::<char>::empty());
    assert(t@.take(k as int) + Seq::<char>::empty() =~= t@.take(k as int));
    crate::text::slice_chars(&t, 0, k)
}

fn is_commit_hash_exec(v: &Vec<char>) -> (b: bool)
    ensures
        b == is_commit_hash(v@),
{
    if v.len() != 40 && v.len() != 64 {
        return false;
    }
    for i in 0..v.len()
        invariant
            forall|j: int| 0 <= j < i ==> is_hexdigit(#[trigger] v@[j]),
    {
        let c = v[i];
        if !(('0' <= c && c <= '9') || ('a' <= c && c <= 'f') || ('A' <= c && c <= 'F')) {
            return false;
        }
    }
    true
}

// ---------------------------------------------------------------------------
// Git references
// ---------------------------------------------------------------------------

/// The line names a git source.
pub open spec fn is_git_line(l: Seq<char>) -> bool {
    contains_seq_spec(l, "git+"@) || contains_seq_spec(l, "git://"@) || contains_seq_spec(l, "git@"@)
        || contains_seq_spec(l, "github.com"@) || contains_seq_spec(l, "gitlab.com"@)
        || contains_seq_spec(l, "bitbucket.org"@) || starts_with_spec(l, "git ="@)
        || starts_with_spec(l, "source = \"git+"@)
}

/// A commit key on the line is followed by a full commit hash.
pub open spec fn key_pins(l: Seq<char>, key: Seq<char>) -> bool {
    match after_first(l, key) {
        Some(v) => is_commit_hash(clean_spec(v)),
        None => false,
    }
}

/// How a git line counts: `None` for a line that names no git source;
/// otherwise pinned only by a full commit hash after `#`, or (with no
/// `#`) after `commit =`, `commit:`, `rev =` or `rev:`; a branch with
/// no `#`, commit or rev is mutable.
pub open spec fn check_git_spec(l: Seq<char>) -> Option<DependencySafety> {
    if !is_git_line(l) {
        None
    } else if (contains_seq_spec(l, "branch ="@) || contains_seq_spec(l, "branch:"@)
        || contains_seq_spec(l, "?branch="@)) && !l.contains('#') && !contains_seq_spec(
        l,
        "commit"@,
    ) && !contains_seq_spec(l, "rev"@) {
        Some(DependencySafety::Mutable)
    } else if contains_seq_spec(l, seq!['#']) {
        if is_commit_hash(clean_spec(after_first(l, seq!['#'])->0)) {
            Some(DependencySafety::Pinned)
        } else {
            Some(DependencySafety::Mutable)
        }
    } else if key_pins(l, "commit ="@) || key_pins(l, "commit:"@) || key_pins(l, "rev ="@)
        || key_pins(l, "rev:"@) {
        Some(DependencySafety::Pinned)
    } else {
        Some(DependencySafety::Mutable)
    }
}

/// `p` occurs in `s` wherever a text that starts with `p` does.
proof fn lemma_contains_prefix(s: Seq<char>, q: Seq<char>, p: Seq<char>)
    requires
        contains_seq_spec(s, q),
        p.len() <= q.len(),
        q.take(p.len() as int) == p,
    ensures
        contains_seq_spec(s, p),
{
    let i = choose|i: int| 0 <= i && i + q.len() <= s.len() && #[trigger] s.subrange(i, i + q.len()) == q;
    assert(s.subrange(i, i + p.len()) =~= q.take(p.len() as int));
}

/// A git line with no `#` is pinned when the text after the first
/// `commit =`, `commit:`, `rev =` or `rev:` on it cleans to a full
/// commit hash (40 or 64 hex digits).
pub proof fn lemma_commit_key_pins(l: Seq<char>, key: Seq<char>)
    requires
        is_git_line(l),
        !l.contains('#'),
        key == "commit ="@ || key == "commit:"@ || key == "rev ="@ || key == "rev:"@,
        contains_seq_spec(l, key),
        is_commit_hash(clean_spec(after_first(l, key)->0)),
    ensures
        check_git_spec(l) == Some(DependencySafety::Pinned),
{
    reveal_strlit("commit =");
    reveal_strlit("commit:");
    reveal_strlit("rev =");
    reveal_strlit("rev:");
    reveal_strlit("commit");
    reveal_strlit("rev");
    if key == "commit ="@ || key == "commit:"@ {
        assert(key.take(6) =~= "commit"@);
        lemma_contains_prefix(l, key, "commit"@);
    } else {
        assert(key.take(3) =~= "rev"@);
        lemma_contains_prefix(l, key, "rev"@);
    }
    assert(!contains_seq_spec(l, seq!['#'])) by {
        if contains_seq_spec(l, seq!['#']) {
            let i = choose|i: int| 0 <= i && i + 1 <= l.len() && #[trigger] l.subrange(i, i + 1) == seq!['#'];
            assert(l.subrange(i, i + 1)[0] == l[i]);
            assert(l.contains(l[i]));
        }
    }
    assert(key_pins(l, key));
}

/// A git line holding `#` is pinned exactly when the text after the
/// first `#` cleans to a full commit hash, and mutable otherwise.
pub proof fn lemma_fragment_decides(l: Seq<char>)
    requires
        is_git_line(l),
        l.contains('#'),
    ensures
        check_git_spec(l) == Some(
            if is_commit_hash(clean_spec(after_first(l, seq!['#'])->0)) {
                DependencySafety::Pinned
            } else {
                DependencySafety::Mutable
            },
        ),
{
    let i = choose|i: int| 0 <= i < l.len() && l[i] == '#';
    assert(l.subrange(i, i + 1) =~= seq!['#']);
    assert(contains_seq_spec(l, seq!['#']));
}

/// A git line with no `#` on which none of `commit =`, `commit:`,
/// `rev =`, `rev:` is followed by a full commit hash is mutable.
pub proof fn lemma_unpinned_git_line_mutable(l: Seq<char>)
    requires
        is_git_line(l),
        !l.contains('#'),
        forall|key: Seq<char>|
            (key == "commit ="@ || key == "commit:"@ || key == "rev ="@ || key == "rev:"@)
                && #[trigger] contains_seq_spec(l, key) ==> !is_commit_hash(clean_spec(after_first(l, key)->0)),
    ensures
        check_git_spec(l) == Some(DependencySafety::Mutable),
{
    assert(!contains_seq_spec(l, seq!['#'])) by {
        if contains_seq_spec(l, seq!['#']) {
            let i = choose|i: int| 0 <= i && i + 1 <= l.len() && #[trigger] l.subrange(i, i + 1) == seq!['#'];
            assert(l.subrange(i, i + 1)[0] == l[i]);
            assert(l.contains(l[i]));
        }
    }
    assert(!key_pins(l, "commit ="@)) by {
        assert(contains_seq_spec(l, "commit ="@) ==> !is_commit_hash(clean_spec(after_first(l, "commit ="@)->0)));
    }
    assert(!key_pins(l, "commit:"@)) by {
        assert(contains_seq_spec(l, "commit:"@) ==> !is_commit_hash(clean_spec(after_first(l, "commit:"@)->0)));
    }
    assert(!key_pins(l, "rev ="@)) by {
        assert(contains_seq_spec(l, "rev ="@) ==> !is_commit_hash(clean_spec(after_first(l, "rev ="@)->0)));
    }
    assert(!key_pins(l, "rev:"@)) by {
        assert(contains_seq_spec(l, "rev:"@) ==> !is_commit_hash(clean_spec(after_first(l, "rev:"@)->0)));
    }
}

fn key_pins_exec(v: &Vec<char>, key: &str) -> (b: bool)
    ensures
        b == key_pins(v@, key@),
{
    match split_after(v, key) {
        Some(x) => is_commit_hash_exec(&clean_exec(&x)),
        None => false,
    }
}

/// Classify one trimmed line that names a git source; `None` when it
/// names none.
pub fn check_git_line(l: &Vec<char>) -> (r: Option<DependencySafety>)
    ensures
        r == check_git_spec(l@),
{
    let is_git = contains_str(l, "git+") || contains_str(l, "git://") || contains_str(l, "git@")
        || contains_str(l, "github.com") || contains_str(l, "gitlab.com") || contains_str(
        l,
        "bitbucket.org",
    ) || starts_with(l, "git =") || starts_with(l, "source = \"git+");
    if !is_git {
        return None;
    }
    let has_hash = contains_char(l, '#');
    if (contains_str(l, "branch =") || contains_str(l, "branch:") || contains_str(l, "?branch="))
        && !has_hash && !contains_str(l, "commit") && !contains_str(l, "rev") {
        return Some(DependencySafety::Mutable);
    }
    let hash_sep = vec!['#'];
    assert(hash_sep@ =~= seq!['#']);
    match find_seq(l, &hash_sep) {
        Some(i) => {
            proof {
                assert(first_at(l@, seq!['#'], i as int));
                let k = choose|k: int| first_at(l@, seq!['#'], k);
                lemma_first_at_unique(l@, seq!['#'], i as int, k);
                assert(contains_seq_spec(l@, seq!['#']));
            }
            let frag = crate::text::slice_chars(l, i + 1, l.len());
            assert(frag@ =~= l@.skip(i + 1));
            if is_commit_hash_exec(&clean_exec(&frag)) {
                return Some(DependencySafety::Pinned);
            } else {
                return Some(DependencySafety::Mutable);
            }
        },
        None => {},
    }
    if key_pins_exec(l, "commit =") || key_pins_exec(l, "commit:") || key_pins_exec(l, "rev =")
        || key_pins_exec(l, "rev:") {
        return Some(DependencySafety::Pinned);
    }
    Some(DependencySafety::Mutable)
}

// ---------------------------------------------------------------------------
// Whole lockfiles
// ---------------------------------------------------------------------------

/// A trimmed lockfile line marks the lockfile mutable: it is not a
/// comment, and it holds a local protocol (`file:`, `link:`,
/// `workspace:`), a local path dependency, or a mutable git reference.
pub open spec fn line_mutable(t: Seq<char>) -> bool {
    &&& !(starts_with_spec(t, "#"@) || starts_with_spec(t, "//"@))
    &&& (contains_seq_spec(t, "file:"@) || contains_seq_spec(t, "link:"@) || contains_seq_spec(
        t,
        "workspace:"@,
    ) || ((starts_with_spec(t, "path ="@) || starts_with_spec(t, "path:"@)) && !contains_seq_spec(
        t,
        "source ="@,
    )) || check_git_spec(t) == Some(DependencySafety::Mutable))
}

/// A lockfile is mutable when any of its lines is; an empty lockfile
/// is pinned.
pub open spec fn classify_spec(content: Seq<char>) -> DependencySafety {
    if exists|i: int|
        0 <= i < lines_spec(content).len() && line_mutable(trim_spec(#[trigger] lines_spec(content)[i])) {
        DependencySafety::Mutable
    } else {
        DependencySafety::Pinned
    }
}

/// Classify whether a lockfile is strictly pinned or holds mutable
/// dependency references.
pub fn classify_lockfile(content: &str) -> (r: DependencySafety)
    ensures
        r == classify_spec(content@),
{
    let v = chars_of(content);
    if v.len() == 0 {
        proof {
            assert(lines_spec(content@).len() == 0) by {
                assert(crate::text::split_spec(content@, '\n') =~= seq![Seq::<char>::empty()]);
                assert(crate::text::split_spec(content@, '\n').drop_last() =~= Seq::<Seq<char>>::empty());
            }
        }
        return DependencySafety::Pinned;
    }
    let lines = lines_of(&v);
    let ghost ls = seqs_of(lines@);
    for i in 0..lines.len()
        invariant
            ls == seqs_of(lines@),
            ls == lines_spec(content@),
            forall|j: int| 0 <= j < i ==> !line_mutable(trim_spec(#[trigger] ls[j])),
    {
        assert(ls[i as int] == lines[i as int]@);
        let t = trim_exec(&lines[i], true);
        let skip = starts_with(&t, "#") || starts_with(&t, "//");
        if !skip {
            if contains_str(&t, "file:") || contains_str(&t, "link:") || contains_str(&t, "workspace:") {
                assert(line_mutable(trim_spec(ls[i as int])));
                return DependencySafety::Mutable;
            }
            if (starts_with(&t, "path =") || starts_with(&t, "path:")) && !contains_str(&t, "source =") {
                assert(line_mutable(trim_spec(ls[i as int])));
                return DependencySafety::Mutable;
            }
            match check_git_line(&t) {
                Some(DependencySafety::Mutable) => {
                    assert(line_mutable(trim_spec(ls[i as int])));
                    return DependencySafety::Mutable;
                },
                _ => {},
            }
        }
    }
    DependencySafety::Pinned
}

} // verus!
