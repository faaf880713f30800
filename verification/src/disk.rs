//! The on-disk content-addressed store: where everything lives under
//! its root, what the reference-count files say, and how each store
//! operation decides on the facts its caller read from disk.
//!
//! Layout, entirely inside the root:
//!
//! - `<root>/objects/<2 hex>/<62 hex>`: content blobs named by their
//!   SHA-256 digest, so identical bytes occupy disk once.
//! - `<root>/refs/<64 hex>`: decimal reference count per blob.
//! - `<root>/verified.tsv`: the ledger of blob fingerprints recorded
//!   when each blob's hash was last checked.

use vstd::prelude::*;

use crate::hash::{sha256, spec_sha256, Sha256Stream};
use crate::idset::IdSet;
use crate::lockfile::{trim_exec, trim_spec};
use crate::paths::{join_chars_path, join_path, path_join};
use crate::stamp::Timestamp;
use crate::text::{chars_of, dec_chars, dec_spec, parse_u64, parse_u64_spec, string_of};
use crate::verified::{Fingerprint, VerifiedLedger};
use crate::{from_hex_spec, hex_spec, ContentId, Error};

verus! {

/// What one sweep pass observed.
#[derive(Debug, Clone, Copy, PartialEq, Eq, Structural)]
pub struct Swept {
    /// Entries the sweep looked at.
    pub examined: u64,
    /// Entries it deleted.
    pub reclaimed: u64,
}

/// `<root>/objects/<first two hex digits>/<other 62>`.
pub open spec fn object_path_spec(root: Seq<char>, id: Seq<u8>) -> Seq<char> {
    path_join(
        path_join(path_join(root, "objects"@), hex_spec(id).take(2)),
        hex_spec(id).skip(2),
    )
}

/// `<root>/refs/<64 hex digits>`.
pub open spec fn ref_path_spec(root: Seq<char>, id: Seq<u8>) -> Seq<char> {
    path_join(path_join(root, "refs"@), hex_spec(id))
}

/// The store's own state: its root and the verified ledger.
pub struct DiskStore {
    root: String,
    ledger: VerifiedLedger,
}

impl DiskStore {
    pub closed spec fn root_spec(&self) -> Seq<char> {
        self.root@
    }

    /// The verified ledger's entries.
    pub closed spec fn verified(&self) -> Map<Seq<u8>, Fingerprint> {
        self.ledger.map()
    }

    /// Whether the ledger holds changes not yet written.
    pub closed spec fn ledger_dirty(&self) -> bool {
        self.ledger.dirty_spec()
    }

    /// A store rooted at `root`; `ledger_text` is the verified ledger
    /// file's text when it could be read.
    pub fn open(root: &str, ledger_text: Option<&str>) -> (s: DiskStore)
        ensures
            s.root_spec() == root@,
            s.verified() == match ledger_text {
                Some(t) => crate::verified::ledger_parse_spec(t@),
                None => Map::empty(),
            },
            !s.ledger_dirty(),
    {
        DiskStore { root: root.to_string(), ledger: VerifiedLedger::open(root, ledger_text) }
    }

    /// The root this store was opened with.
    pub fn root(&self) -> (r: &str)
        ensures
            r@ == self.root_spec(),
    {
        self.root.as_str()
    }

    /// Path of the blob stored at `id`, whether or not it exists.
    pub fn object_path(&self, id: &ContentId) -> (r: String)
        ensures
            r@ == object_path_spec(self.root_spec(), id.0@),
    {
        let objects = join_path(self.root.as_str(), "objects");
        let hex = id.hex_chars();
        let head = crate::text::slice_chars(&hex, 0, 2);
        let tail = crate::text::slice_chars(&hex, 2, 64);
        assert(head@ =~= hex_spec(id.0@).take(2));
        assert(tail@ =~= hex_spec(id.0@).skip(2));
        let shard = join_chars_path(&chars_of(objects.as_str()), &head);
        let full = join_chars_path(&shard, &tail);
        string_of(&full)
    }

    /// Path of the blob stored at `id`, for materializers that hand the
    /// blob file itself to the kernel.
    pub fn blob_path(&self, id: &ContentId) -> (r: String)
        ensures
            r@ == object_path_spec(self.root_spec(), id.0@),
    {
        self.object_path(id)
    }

    /// Path of `id`'s reference-count file.
    pub fn ref_path(&self, id: &ContentId) -> (r: String)
        ensures
            r@ == ref_path_spec(self.root_spec(), id.0@),
    {
        let refs = join_path(self.root.as_str(), "refs");
        let p = join_chars_path(&chars_of(refs.as_str()), &id.hex_chars());
        string_of(&p)
    }

    /// Final directory of one published snapshot.
    pub fn snapshot_path(&self, hash: &ContentId) -> (r: String)
        ensures
            r@ == crate::snapshot::snapshot_path_spec(self.root_spec(), hash.0@),
    {
        crate::snapshot::snapshot_path(self.root.as_str(), hash)
    }

    /// Whether the ledger vouches for `id` at this size and mtime, so
    /// verifying it needs no read.
    pub fn is_verified(&self, id: &ContentId, size: u64, mtime: Timestamp) -> (b: bool)
        ensures
            b == crate::verified::vouches(self.verified(), id.0@, size, mtime),
    {
        self.ledger.matches(id, size, mtime)
    }

    /// Record that `id` hashed to its address at this fingerprint.
    pub fn record_verified(&mut self, id: ContentId, fingerprint: Fingerprint)
        ensures
            final(self).verified() == old(self).verified().insert(id.0@, fingerprint),
            final(self).ledger_dirty(),
            final(self).root_spec() == old(self).root_spec(),
    {
        self.ledger.record(id, fingerprint);
    }

    /// Drop the ledger entry of a deleted blob.
    pub fn forget_verified(&mut self, id: &ContentId)
        ensures
            final(self).verified() == old(self).verified().remove(id.0@),
            final(self).ledger_dirty() == (old(self).ledger_dirty() || old(self).verified().dom().contains(
                id.0@,
            )),
            final(self).root_spec() == old(self).root_spec(),
    {
        self.ledger.forget(id);
    }

    /// The ledger text still to be written, if anything changed since
    /// it was last saved.
    pub fn pending_ledger(&self) -> (r: Option<String>)
        ensures
            r is Some <==> self.ledger_dirty(),
            r matches Some(t) ==> (crate::verified::times_ok(self.verified()) ==> crate::verified::ledger_parse_spec(t@)
                == self.verified()),
    {
        if self.ledger.is_dirty() {
            Some(self.ledger.serialize())
        } else {
            None
        }
    }

    /// Note that the pending ledger text was written.
    pub fn ledger_saved(&mut self)
        ensures
            !final(self).ledger_dirty(),
            final(self).verified() == old(self).verified(),
            final(self).root_spec() == old(self).root_spec(),
    {
        self.ledger.mark_saved();
    }

    /// Path of the ledger file.
    pub fn ledger_path(&self) -> (r: String)
        ensures
            r@ == path_join(self.root_spec(), "verified.tsv"@),
    {
        join_path(self.root.as_str(), "verified.tsv")
    }
}

// ---------------------------------------------------------------------------
// Content addresses
// ---------------------------------------------------------------------------

/// The address `put` stores `content` under: its SHA-256 digest.
pub fn content_id(content: &[u8]) -> (id: ContentId)
    ensures
        id.0@ == spec_sha256(content@),
{
    ContentId(sha256(content))
}

/// Identical bytes are stored under one address: `put` deduplicates.
pub proof fn lemma_put_deduplicates(a: Seq<u8>, b: Seq<u8>)
    requires
        a == b,
    ensures
        spec_sha256(a) == spec_sha256(b),
{
}

/// The outcome of reading `content` back from `id`'s blob: the bytes
/// when they still hash to the address, `Corrupted` when they do not.
pub fn checked_content(id: &ContentId, content: Vec<u8>) -> (r: Result<Vec<u8>, Error>)
    ensures
        spec_sha256(content@) == id.0@ ==> (r matches Ok(c) && c@ == content@),
        spec_sha256(content@) != id.0@ ==> (r matches Err(Error::Corrupted(x)) && x == *id),
{
    let digest = sha256(content.as_slice());
    if ContentId(digest) == *id {
        Ok(content)
    } else {
        Err(Error::Corrupted(*id))
    }
}

/// Compare a streamed digest with the expected address.
pub fn check_digest(expected: &ContentId, digest: [u8; 32]) -> (r: Result<(), Error>)
    ensures
        digest@ == expected.0@ ==> r is Ok,
        digest@ != expected.0@ ==> (r matches Err(Error::Corrupted(x)) && x == *expected),
{
    if ContentId(digest) == *expected {
        Ok(())
    } else {
        Err(Error::Corrupted(*expected))
    }
}

/// The address of everything fed to `s`: SHA-256 of the streamed bytes.
pub fn stream_content_id(s: Sha256Stream) -> (id: ContentId)
    ensures
        id.0@ == spec_sha256(s.fed()),
{
    ContentId(s.finalize())
}

/// Check streamed bytes against the address they were stored under:
/// `Ok` exactly when their SHA-256 is `expected`, else `Corrupted`.
pub fn check_stream(expected: &ContentId, s: Sha256Stream) -> (r: Result<(), Error>)
    ensures
        (r is Ok) == (spec_sha256(s.fed()) == expected.0@),
        r is Err ==> (r matches Err(Error::Corrupted(x)) && x == *expected),
{
    let digest = s.finalize();
    check_digest(expected, digest)
}

// ---------------------------------------------------------------------------
// Reference counts
// ---------------------------------------------------------------------------

/// What a reference-count file says: a decimal count, surrounding
/// whitespace ignored.
pub open spec fn ref_count_parse_spec(text: Seq<char>) -> Option<nat> {
    parse_u64_spec(trim_spec(text))
}

/// The text a count is written as.
pub open spec fn ref_count_text_spec(count: nat) -> Seq<char> {
    dec_spec(count).push('\n')
}

/// Read a reference-count file's text.
pub fn parse_ref_count(text: &str) -> (r: Option<u64>)
    ensures
        match r {
            Some(n) => ref_count_parse_spec(text@) == Some(n as nat),
            None => ref_count_parse_spec(text@) is None,
        },
{
    let t = trim_exec(&chars_of(text), true);
    parse_u64(&t)
}

/// The text a reference count is written as.
pub fn ref_count_text(count: u64) -> (r: String)
    ensures
        r@ == ref_count_text_spec(count as nat),
{
    let mut v = dec_chars(count);
    v.push('\n');
    string_of(&v)
}

/// A count written and read back is the same count.
pub proof fn lemma_ref_count_round_trip(count: u64)
    ensures
        ref_count_parse_spec(ref_count_text_spec(count as nat)) == Some(count as nat),
{
    let d = dec_spec(count as nat);
    crate::text::lemma_fmt_uint(count as nat, 10);
    crate::text::lemma_parse_fmt(count as nat, 10, u64::MAX as nat);
    crate::text::lemma_digits_plain(d, 10);
    assert(d.len() > 0);
    assert(!crate::lockfile::is_ws(d[0]));
    assert(!crate::lockfile::is_ws(d.last())) by {
        assert(d.last() == d[d.len() - 1]);
    }
    crate::lockfile::lemma_trim_plain_nl(d);
}

/// What a caller found when it went to read a reference count.
#[derive(Debug, Clone, Copy, PartialEq, Eq, Structural)]
pub enum RefFile {
    /// No count file: zero references.
    Missing,
    /// The count the file holds.
    Count(u64),
}

/// The references a count file stands for.
pub open spec fn refs_of(current: RefFile) -> int {
    match current {
        RefFile::Missing => 0,
        RefFile::Count(n) => n as int,
    }
}

/// The count `add_ref` writes, or `None` (unknown content) when there
/// is neither a count file nor a blob.
pub open spec fn count_after_add(current: RefFile, blob_exists: bool) -> Option<int> {
    match current {
        RefFile::Count(n) => Some(n + 1),
        RefFile::Missing => if blob_exists { Some(1) } else { None },
    }
}

/// The count `release_ref` writes, or `None` (underflow) when the blob
/// is absent or holds no reference.
pub open spec fn count_after_release(blob_exists: bool, current: RefFile) -> Option<int> {
    if blob_exists && refs_of(current) > 0 {
        Some(refs_of(current) - 1)
    } else {
        None
    }
}

/// `add_ref`: the count to write, or `UnknownContent`.
pub fn next_ref_on_add(id: &ContentId, current: RefFile, blob_exists: bool) -> (r: Result<u64, Error>)
    requires
        current != RefFile::Count(u64::MAX),
    ensures
        match count_after_add(current, blob_exists) {
            Some(m) => r matches Ok(k) && k == m,
            None => r matches Err(Error::UnknownContent(x)) && x == *id,
        },
{
    match current {
        RefFile::Count(n) => Ok(n + 1),
        RefFile::Missing => {
            if blob_exists {
                Ok(1)
            } else {
                Err(Error::UnknownContent(*id))
            }
        },
    }
}

/// `release_ref`: the count to write, or `RefCountUnderflow`.
pub fn next_ref_on_release(id: &ContentId, blob_exists: bool, current: RefFile) -> (r: Result<u64, Error>)
    ensures
        match count_after_release(blob_exists, current) {
            Some(m) => r matches Ok(k) && k == m,
            None => r matches Err(Error::RefCountUnderflow(x)) && x == *id,
        },
{
    if !blob_exists {
        return Err(Error::RefCountUnderflow(*id));
    }
    let n = match current {
        RefFile::Count(n) => n,
        RefFile::Missing => 0,
    };
    if n == 0 {
        Err(Error::RefCountUnderflow(*id))
    } else {
        Ok(n - 1)
    }
}

/// `ref_count`: the count (zero without a count file), or
/// `UnknownContent` when the blob is absent.
pub fn ref_count_of(id: &ContentId, blob_exists: bool, current: RefFile) -> (r: Result<u64, Error>)
    ensures
        blob_exists ==> (r matches Ok(k) && k == refs_of(current)),
        !blob_exists ==> (r matches Err(Error::UnknownContent(x)) && x == *id),
{
    if !blob_exists {
        return Err(Error::UnknownContent(*id));
    }
    match current {
        RefFile::Count(n) => Ok(n),
        RefFile::Missing => Ok(0),
    }
}

/// For a stored blob, adding a reference and then releasing it leaves
/// the count where it was; a release never takes a count below zero.
pub proof fn lemma_add_then_release(current: RefFile)
    requires
        current != RefFile::Count(u64::MAX),
    ensures
        count_after_add(current, true) matches Some(m) && m <= u64::MAX && count_after_release(
            true,
            RefFile::Count(m as u64),
        ) == Some(refs_of(current)),
        forall|c: RefFile, e: bool| #[trigger] count_after_release(e, c) matches Some(m) ==> m >= 0,
{
}

// ---------------------------------------------------------------------------
// Enumerating the store
// ---------------------------------------------------------------------------

pub open spec fn names_view(s: Seq<(String, String)>) -> Seq<(Seq<char>, Seq<char>)> {
    s.map_values(|p: (String, String)| (p.0@, p.1@))
}

/// The ids a listing of `objects/` spells: each (shard directory, file)
/// name pair whose concatenation is 64 hex digits.
pub open spec fn listed_ids(names: Seq<(Seq<char>, Seq<char>)>) -> Set<Seq<u8>> {
    Set::new(
        |b: Seq<u8>|
            exists|i: int|
                0 <= i < names.len() && from_hex_spec(#[trigger] names[i].0 + names[i].1) == Some(b),
    )
}

/// Every content id stored, in increasing order, from the names found
/// under `objects/`; malformed names are skipped.
pub fn ids_from_names(names: &Vec<(String, String)>) -> (r: IdSet)
    ensures
        r@ == listed_ids(names_view(names@)),
{
    let ghost nv = names_view(names@);
    let mut r = IdSet::new();
    let mut i: usize = 0;
    assert(r@ =~= listed_ids(nv.take(0)));
    while i < names.len()
        invariant
            i <= nv.len(),
            nv == names_view(names@),
            r@ == listed_ids(nv.take(i as int)),
        decreases nv.len() - i,
    {
        let mut hex = chars_of(names[i].0.as_str());
        crate::text::extend_str(&mut hex, names[i].1.as_str());
        assert(hex@ == nv[i as int].0 + nv[i as int].1);
        match ContentId::from_hex_chars(&hex) {
            Some(id) => {
                r.insert(id);
            },
            None => {},
        }
        proof {
            let t = nv.take(i + 1);
            assert(r@ =~= listed_ids(t)) by {
                assert forall|b: Seq<u8>| r@.contains(b) <==> listed_ids(t).contains(b) by {
                    if listed_ids(t).contains(b) {
                        let k = choose|k: int| 0 <= k < t.len() && from_hex_spec(#[trigger] t[k].0 + t[k].1) == Some(b);
                        if k < i {
                            assert(nv.take(i as int)[k] == t[k]);
                            assert(listed_ids(nv.take(i as int)).contains(b));
                        }
                    }
                    if listed_ids(nv.take(i as int)).contains(b) {
                        let k = choose|k: int| 0 <= k < i && from_hex_spec(#[trigger] nv.take(i as int)[k].0 + nv.take(i as int)[k].1) == Some(b);
                        assert(t[k] == nv.take(i as int)[k]);
                    }
                    if from_hex_spec(hex@) == Some(b) {
                        assert(t[i as int] == nv[i as int]);
                    }
                }
            }
        }
        i = i + 1;
    }
    assert(nv.take(i as int) =~= nv);
    r
}

} // verus!
