//! Lease records for ephemeral scratch and isolate worktrees.
//!
//! A lease is written to `<store>/worktrees/scratch-<id>.lease` when an
//! ephemeral worktree is spawned. It keeps the canonical worktree and
//! git directory paths, the owning process id, that process's start
//! time fingerprint (to detect pid reuse), and an expiration timestamp
//! in unix seconds:
//!
//! ```text
//! v1\tlease\t<escaped-worktree>\t<escaped-gitdir>\t<pid>\t<start-time>\t<expires-at>
//! ```
//!
//! Sweeping reads lease files to reclaim dead or expired scratch worktrees.

use vstd::prelude::*;

use crate::mirror::{
    escape_chars, escape_spec, kw_v1, lemma_escape_framing_free, lemma_unescape_escape,
    tab_line, text_message, unescape_chars, unescape_spec,
};
use crate::paths::{join_path, path_join};
use crate::text::{
    cat2, chars_eq, chars_of, debug_quote, dec_chars, dec_spec, join_spec, lemma_digits_plain, lemma_fmt_uint,
    lemma_join_free, lemma_parse_fmt, lemma_split_join, lines_of, lines_spec,
    parse_u32_spec, parse_u64, parse_u64_spec, pieces_free_of, seqs_of, split_chars, split_spec,
    starts_with, starts_with_spec, string_of, strip_cr, strip_cr_fn,
};

verus! {

/// Default lease time-to-live: one hour.
pub const DEFAULT_LEASE_TTL_SECS: u64 = 3600;

/// A lease record.
#[derive(Debug, Clone, PartialEq, Eq)]
pub struct WorktreeLease {
    /// Identifier (e.g. "scratch-abc12345" or "abc12345").
    pub id: String,
    /// Canonical path of the worktree directory.
    pub worktree: String,
    /// Canonical path of the worktree's git directory.
    pub gitdir: String,
    /// Owning process id.
    pub pid: u32,
    /// Process start time fingerprint.
    pub start_time: u64,
    /// Expiration timestamp in unix seconds; 0 means never.
    pub expires_at: u64,
}

pub open spec fn kw_lease() -> Seq<char> {
    seq!['l', 'e', 'a', 's', 'e']
}

/// The fields of a lease line: worktree, gitdir, pid, start time,
/// expiration.
pub type LeaseFields = (Seq<char>, Seq<char>, u32, u64, u64);

/// The line a lease is written as, without its newline.
pub open spec fn lease_line_spec(f: LeaseFields) -> Seq<char> {
    join_spec(
        seq![
            kw_v1(),
            kw_lease(),
            escape_spec(f.0),
            escape_spec(f.1),
            dec_spec(f.2 as nat),
            dec_spec(f.3 as nat),
            dec_spec(f.4 as nat),
        ],
        '\t',
    )
}

/// What a lease file holds: its first line must be a `v1 lease` line
/// of seven fields with valid escapes, non-empty paths and decimal
/// numbers that fit; `None` otherwise.
pub open spec fn lease_parse_spec(text: Seq<char>) -> Option<LeaseFields> {
    let ls = lines_spec(text);
    if ls.len() == 0 {
        None
    } else {
        let f = split_spec(ls[0], '\t');
        if f.len() != 7 || f[0] != kw_v1() || f[1] != kw_lease() {
            None
        } else {
            match (
                unescape_spec(f[2]),
                unescape_spec(f[3]),
                parse_u32_spec(f[4]),
                parse_u64_spec(f[5]),
                parse_u64_spec(f[6]),
            ) {
                (Some(w), Some(g), Some(p), Some(s), Some(e)) => if w.len() > 0 && g.len() > 0 {
                    Some((w, g, p as u32, s as u64, e as u64))
                } else {
                    None
                },
                _ => None,
            }
        }
    }
}

/// The `Display` text of the error `s.parse::<u32>()` reports.
pub uninterp spec fn u32_parse_error(s: Seq<char>) -> Seq<char>;

/// The `Display` text of the error `s.parse::<u64>()` reports.
pub uninterp spec fn u64_parse_error(s: Seq<char>) -> Seq<char>;

/// `<u32 as FromStr>::from_str`: an optional `+` and decimal digits
/// whose value fits, as [`parse_u32_spec`] states; otherwise the text
/// of the error std reports.
#[verifier::external_body]
fn std_parse_u32(s: &str) -> (r: Result<u32, String>)
    ensures
        match r {
            Ok(v) => parse_u32_spec(s@) == Some(v as nat),
            Err(m) => parse_u32_spec(s@) is None && m@ == u32_parse_error(s@),
        },
{
    match s.parse::<u32>() {
        Ok(v) => Ok(v),
        Err(e) => Err(e.to_string()),
    }
}

/// `<u64 as FromStr>::from_str`: an optional `+` and decimal digits
/// whose value fits, as [`parse_u64_spec`] states; otherwise the text
/// of the error std reports.
#[verifier::external_body]
fn std_parse_u64(s: &str) -> (r: Result<u64, String>)
    ensures
        match r {
            Ok(v) => parse_u64_spec(s@) == Some(v as nat),
            Err(m) => parse_u64_spec(s@) is None && m@ == u64_parse_error(s@),
        },
{
    match s.parse::<u64>() {
        Ok(v) => Ok(v),
        Err(e) => Err(e.to_string()),
    }
}

impl WorktreeLease {
    /// The lease's fields as plain values.
    pub open spec fn fields(&self) -> LeaseFields {
        (self.worktree@, self.gitdir@, self.pid, self.start_time, self.expires_at)
    }

    /// A lease record in memory.
    pub fn new(
        id: String,
        worktree: String,
        gitdir: String,
        pid: u32,
        start_time: u64,
        expires_at: u64,
    ) -> (r: WorktreeLease)
        ensures
            r.id == id,
            r.worktree == worktree,
            r.gitdir == gitdir,
            r.pid == pid,
            r.start_time == start_time,
            r.expires_at == expires_at,
    {
        WorktreeLease { id, worktree, gitdir, pid, start_time, expires_at }
    }

    /// Render the lease record as one TSV line.
    pub fn serialize(&self) -> (r: String)
        ensures
            r@ == lease_line_spec(self.fields()).push('\n'),
    {
        let mut fields: Vec<Vec<char>> = Vec::new();
        fields.push(crate::mirror::kw_chars_v1());
        fields.push(kw_chars_lease());
        fields.push(escape_chars(&chars_of(self.worktree.as_str())));
        fields.push(escape_chars(&chars_of(self.gitdir.as_str())));
        fields.push(dec_chars(self.pid as u64));
        fields.push(dec_chars(self.start_time));
        fields.push(dec_chars(self.expires_at));
        assert(seqs_of(fields@) =~= seq![
            kw_v1(),
            kw_lease(),
            escape_spec(self.worktree@),
            escape_spec(self.gitdir@),
            dec_spec(self.pid as nat),
            dec_spec(self.start_time as nat),
            dec_spec(self.expires_at as nat),
        ]);
        let mut line = tab_line(&fields);
        line.push('\n');
        string_of(&line)
    }

    /// Parse a lease record from its file text; `id` comes from the
    /// file name.
    pub fn parse(id: &str, text: &str) -> (r: Result<WorktreeLease, String>)
        ensures
            match r {
                Ok(l) => lease_parse_spec(text@) == Some(l.fields()) && l.id@ == id@,
                Err(_) => lease_parse_spec(text@) is None,
            },
    {
        let lines = lines_of(&chars_of(text));
        if lines.len() == 0 {
            return Err(text_message("empty lease file"));
        }
        assert(seqs_of(lines@)[0] == lines[0]@);
        let f = split_chars(&lines[0], '\t');
        let ghost fs = seqs_of(f@);
        if f.len() != 7 || !chars_eq(&f[0], &crate::mirror::kw_chars_v1()) || !chars_eq(
            &f[1],
            &kw_chars_lease(),
        ) {
            return Err(cat2("bad v1 lease header: ", debug_quote(string_of(&lines[0]).as_str()).as_str()));
        }
        assert(fs[2] == f[2]@ && fs[3] == f[3]@ && fs[4] == f[4]@ && fs[5] == f[5]@ && fs[6]
            == f[6]@);
        let worktree = match unescape_chars(&f[2]) {
            Ok(w) => w,
            Err(e) => {
                return Err(e);
            },
        };
        if worktree.len() == 0 {
            return Err(text_message("empty worktree path in lease"));
        }
        let gitdir = match unescape_chars(&f[3]) {
            Ok(g) => g,
            Err(e) => {
                return Err(e);
            },
        };
        if gitdir.len() == 0 {
            return Err(text_message("empty gitdir path in lease"));
        }
        let pid = match std_parse_u32(string_of(&f[4]).as_str()) {
            Ok(p) => p,
            Err(e) => {
                return Err(cat2("bad pid: ", e.as_str()));
            },
        };
        let start_time = match std_parse_u64(string_of(&f[5]).as_str()) {
            Ok(s) => s,
            Err(e) => {
                return Err(cat2("bad start_time: ", e.as_str()));
            },
        };
        let expires_at = match std_parse_u64(string_of(&f[6]).as_str()) {
            Ok(e) => e,
            Err(e) => {
                return Err(cat2("bad expires_at: ", e.as_str()));
            },
        };
        Ok(
            WorktreeLease {
                id: id.to_owned(),
                worktree: string_of(&worktree),
                gitdir: string_of(&gitdir),
                pid,
                start_time,
                expires_at,
            },
        )
    }
}

fn kw_chars_lease() -> (r: Vec<char>)
    ensures
        r@ == kw_lease(),
{
    let r = vec!['l', 'e', 'a', 's', 'e'];
    assert(r@ =~= kw_lease());
    r
}

/// Round trip: a lease with non-empty paths parses back from its own
/// text to the same fields, and that text holds no carriage return.
pub proof fn lemma_lease_round_trip(f: LeaseFields)
    requires
        f.0.len() > 0,
        f.1.len() > 0,
    ensures
        lease_parse_spec(lease_line_spec(f).push('\n')) == Some(f),
        !lease_line_spec(f).push('\n').contains('\r'),
{
    let ps = seq![
        kw_v1(),
        kw_lease(),
        escape_spec(f.0),
        escape_spec(f.1),
        dec_spec(f.2 as nat),
        dec_spec(f.3 as nat),
        dec_spec(f.4 as nat),
    ];
    crate::mirror::lemma_keywords_plain();
    crate::mirror::lemma_plain_word_free(kw_lease());
    lemma_escape_framing_free(f.0);
    lemma_escape_framing_free(f.1);
    lemma_unescape_escape(f.0);
    lemma_unescape_escape(f.1);
    lemma_fmt_uint(f.2 as nat, 10);
    lemma_fmt_uint(f.3 as nat, 10);
    lemma_fmt_uint(f.4 as nat, 10);
    lemma_digits_plain(dec_spec(f.2 as nat), 10);
    lemma_digits_plain(dec_spec(f.3 as nat), 10);
    lemma_digits_plain(dec_spec(f.4 as nat), 10);
    lemma_parse_fmt(f.2 as nat, 10, u32::MAX as nat);
    lemma_parse_fmt(f.3 as nat, 10, u64::MAX as nat);
    lemma_parse_fmt(f.4 as nat, 10, u64::MAX as nat);
    assert(pieces_free_of(ps, '\t'));
    assert(pieces_free_of(ps, '\n'));
    assert(pieces_free_of(ps, '\r'));
    lemma_split_join(ps, '\t');
    lemma_join_free(ps, '\t', '\n');
    lemma_join_free(ps, '\t', '\r');
    let j = lease_line_spec(f);
    let t = j.push('\n');
    assert(j == join_spec(ps.drop_last(), '\t').push('\t') + ps.last());
    let d = dec_spec(f.4 as nat);
    assert(j.last() == d.last()) by {
        assert(j[j.len() - 1] == ps.last()[ps.last().len() - 1]);
    }
    assert(d.contains(d.last()));
    assert(j.last() != '\r');
    assert(strip_cr(j) == j);
    lemma_split_join(seq![j], '\n');
    assert(join_spec(seq![j], '\n') == j);
    assert(t.drop_last() =~= j);
    assert(split_spec(t, '\n') == split_spec(j, '\n').push(Seq::<char>::empty()));
    assert(lines_spec(t) =~= seq![strip_cr(j)]);
    assert(!t.contains('\r')) by {
        if t.contains('\r') {
            let k = choose|k: int| 0 <= k < t.len() && t[k] == '\r';
            if k < j.len() {
                assert(j[k] == '\r');
            }
        }
    }
}

/// Path of a lease file: `<root>/worktrees/scratch-<id>.lease`, where
/// an id already starting with `scratch-` is not prefixed again.
pub open spec fn lease_path_spec(root: Seq<char>, id: Seq<char>) -> Seq<char> {
    let name = if starts_with_spec(id, "scratch-"@) {
        id + ".lease"@
    } else {
        "scratch-"@ + id + ".lease"@
    };
    path_join(path_join(root, "worktrees"@), name)
}

/// Compute the lease file path `<root>/worktrees/scratch-<id>.lease`.
pub fn lease_path(root: &str, id: &str) -> (r: String)
    ensures
        r@ == lease_path_spec(root@, id@),
{
    let v = chars_of(id);
    let mut name: Vec<char> = Vec::new();
    if !starts_with(&v, "scratch-") {
        crate::text::extend_str(&mut name, "scratch-");
    }
    crate::text::extend_chars(&mut name, &v);
    crate::text::extend_str(&mut name, ".lease");
    let dir = join_path(root, "worktrees");
    let r = crate::paths::join_chars_path(&chars_of(dir.as_str()), &name);
    proof {
        if starts_with_spec(id@, "scratch-"@) {
            assert(name@ =~= id@ + ".lease"@);
        } else {
            assert(name@ =~= "scratch-"@ + id@ + ".lease"@);
        }
    }
    string_of(&r)
}

/// Whether a lease has expired at `now_secs` (unix seconds): it has an
/// expiration and that moment has come.
pub fn is_lease_expired(lease: &WorktreeLease, now_secs: u64) -> (r: bool)
    ensures
        r == (lease.expires_at > 0 && now_secs >= lease.expires_at),
{
    lease.expires_at > 0 && now_secs >= lease.expires_at
}


// ---------------------------------------------------------------------------
// Process liveness
// ---------------------------------------------------------------------------

/// The pieces of `s` between whitespace characters, empty ones included.
pub open spec fn split_ws_spec(s: Seq<char>) -> Seq<Seq<char>>
    decreases s.len(),
{
    if s.len() == 0 {
        seq![Seq::<char>::empty()]
    } else {
        let init = split_ws_spec(s.drop_last());
        if crate::lockfile::is_ws(s.last()) {
            init.push(Seq::<char>::empty())
        } else {
            init.update(init.len() - 1, init.last().push(s.last()))
        }
    }
}

proof fn lemma_split_ws_nonempty(s: Seq<char>)
    ensures
        split_ws_spec(s).len() >= 1,
    decreases s.len(),
{
    if s.len() > 0 {
        lemma_split_ws_nonempty(s.drop_last());
    }
}

/// `str::split_whitespace`: the runs of non-whitespace characters.
pub open spec fn words_spec(s: Seq<char>) -> Seq<Seq<char>> {
    split_ws_spec(s).filter(crate::text::nonempty_fn())
}

fn split_ws(v: &Vec<char>) -> (r: Vec<Vec<char>>)
    ensures
        seqs_of(r@) == split_ws_spec(v@),
{
    let mut done: Vec<Vec<char>> = Vec::new();
    let mut cur: Vec<char> = Vec::new();
    for i in 0..v.len()
        invariant
            seqs_of(done@).push(cur@) == split_ws_spec(v@.take(i as int)),
    {
        let c = v[i];
        let ghost before = v@.take(i as int);
        assert(v@.take(i + 1).drop_last() =~= before);
        assert(v@.take(i + 1).last() == c);
        proof {
            lemma_split_ws_nonempty(before);
        }
        if crate::lockfile::is_ws_exec(c) {
            let finished = cur;
            cur = Vec::new();
            done.push(finished);
            assert(seqs_of(done@) =~= split_ws_spec(before));
            assert(seqs_of(done@).push(cur@) =~= split_ws_spec(v@.take(i + 1)));
        } else {
            cur.push(c);
            assert(seqs_of(done@).push(cur@) =~= split_ws_spec(v@.take(i + 1)));
        }
    }
    assert(v@.take(v.len() as int) =~= v@);
    let ghost dd = seqs_of(done@);
    let ghost cv = cur@;
    done.push(cur);
    assert(seqs_of(done@) =~= dd.push(cv));
    done
}

/// [`words_spec`].
pub fn words(v: &Vec<char>) -> (r: Vec<Vec<char>>)
    ensures
        seqs_of(r@) == words_spec(v@),
{
    let pieces = split_ws(v);
    let ghost p = seqs_of(pieces@);
    let mut out: Vec<Vec<char>> = Vec::new();
    for i in 0..pieces.len()
        invariant
            p == seqs_of(pieces@),
            seqs_of(out@) == p.take(i as int).filter(crate::text::nonempty_fn()),
    {
        proof {
            p.take(i as int).lemma_filter_push(p[i as int], crate::text::nonempty_fn());
            assert(p.take(i as int).push(p[i as int]) =~= p.take(i + 1));
        }
        assert(pieces[i as int]@ == p[i as int]);
        if pieces[i].len() > 0 {
            out.push(pieces[i].clone());
            assert(seqs_of(out@) =~= p.take(i + 1).filter(crate::text::nonempty_fn()));
        } else {
            assert(seqs_of(out@) =~= p.take(i + 1).filter(crate::text::nonempty_fn()));
        }
    }
    assert(p.take(pieces.len() as int) =~= p);
    out
}

/// The start time `/proc/<pid>/stat` records: the twentieth
/// whitespace-separated field after the last `)` (which closes the
/// command name), when it is a decimal `u64`.
pub open spec fn stat_start_time_spec(content: Seq<char>) -> Option<nat> {
    let i = crate::text::last_index_spec(content, ')');
    if i < 0 {
        None
    } else {
        let w = words_spec(content.skip(i + 1));
        if w.len() > 19 {
            parse_u64_spec(w[19])
        } else {
            None
        }
    }
}

/// Read a process's start time from the text of its `/proc/<pid>/stat`.
pub fn start_time_from_stat(content: &str) -> (r: Option<u64>)
    ensures
        match r {
            Some(n) => stat_start_time_spec(content@) == Some(n as nat),
            None => stat_start_time_spec(content@) is None,
        },
{
    let v = chars_of(content);
    match crate::text::rfind_char(&v, ')') {
        None => None,
        Some(i) => {
            proof {
                crate::text::lemma_last_index(v@, ')');
            }
            let rest = crate::text::slice_chars(&v, i + 1, v.len());
            assert(rest@ =~= v@.skip(i + 1));
            let w = words(&rest);
            if w.len() > 19 {
                assert(seqs_of(w@)[19] == w[19]@);
                parse_u64(&w[19])
            } else {
                None
            }
        },
    }
}

/// Whether a lease's process still runs: pid 0 never does; a process
/// the kernel reports gone (`ESRCH`) does not; a recorded start time
/// that differs from the process's current one means the pid was
/// reused. Anything else counts as alive.
pub fn process_alive(pid: u32, reported_gone: bool, expected_start_time: u64, current_start_time: Option<u64>) -> (r: bool)
    ensures
        r == (pid != 0 && !reported_gone && !(expected_start_time > 0 && (current_start_time matches Some(c) && c != expected_start_time))),
{
    if pid == 0 {
        return false;
    }
    if reported_gone {
        return false;
    }
    if expected_start_time > 0 {
        match current_start_time {
            Some(c) => {
                if c != expected_start_time {
                    return false;
                }
            },
            None => {},
        }
    }
    true
}


/// One lease file found on disk.
#[derive(Debug, PartialEq, Eq)]
pub struct ReadLease {
    /// Where the lease file lives.
    pub path: String,
    /// Identifier taken from the file name.
    pub id: String,
    /// Modification time of the lease file.
    pub modified: crate::stamp::Timestamp,
    /// The parsed lease, or why it could not be parsed.
    pub lease: Result<WorktreeLease, String>,
}

/// The id a lease file name carries: the stem of a `<id>.lease` name.
pub open spec fn lease_id_spec(name: Seq<char>) -> Option<Seq<char>> {
    let ext = ".lease"@;
    if name.len() > ext.len() && name.skip(name.len() - ext.len()) == ext {
        Some(name.take(name.len() - ext.len()))
    } else {
        None
    }
}

/// A name is a lease file exactly when it is a non-empty id followed by
/// `.lease`, and that id is what the name yields; any other name, one
/// not ending in `.lease` among them, yields nothing.
pub proof fn lemma_lease_id_suffix(name: Seq<char>, id: Seq<char>)
    ensures
        lease_id_spec(name) == Some(id) <==> (id.len() > 0 && name == id + ".lease"@),
        !(name.len() >= ".lease"@.len() && name.skip(name.len() - ".lease"@.len()) == ".lease"@)
            ==> lease_id_spec(name) is None,
{
    let ext = ".lease"@;
    if id.len() > 0 && name == id + ext {
        assert(name.skip(name.len() - ext.len()) =~= ext);
        assert(name.take(name.len() - ext.len()) =~= id);
    }
    if lease_id_spec(name) == Some(id) {
        assert(name =~= name.take(name.len() - ext.len()) + name.skip(name.len() - ext.len()));
    }
}

/// The lease id of a file name under `worktrees/`, when it is a lease.
pub fn lease_id_of(name: &str) -> (r: Option<String>)
    ensures
        match r {
            Some(id) => lease_id_spec(name@) == Some(id@),
            None => lease_id_spec(name@) is None,
        },
{
    let v = chars_of(name);
    let ext = chars_of(".lease");
    if v.len() > ext.len() {
        let cut = v.len() - ext.len();
        let tail = crate::text::slice_chars(&v, cut, v.len());
        assert(tail@ =~= v@.skip(cut as int));
        if chars_eq(&tail, &ext) {
            let stem = crate::text::slice_chars(&v, 0, cut);
            assert(stem@ =~= v@.take(cut as int));
            return Some(string_of(&stem));
        }
    }
    None
}

} // verus!
