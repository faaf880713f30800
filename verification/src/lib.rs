//! Content-addressed store: every unique file content is kept exactly
//! once, addressed by its SHA-256 hash, with the text formats, ledgers,
//! snapshot manifests, and garbage-collection decisions that keep it
//! consistent.

use vstd::prelude::*;

pub mod bulkwalk;
pub mod disk;
pub mod gc;
pub mod hash;
pub mod hydrate;
pub mod idset;
pub mod ingest;
pub mod kvmap;
pub mod lease;
pub mod lockfile;
pub mod mirror;
pub mod paths;
pub mod projection;
pub mod publish;
pub mod scrub;
pub mod sidecar;
pub mod snapdiff;
pub mod snapindex;
pub mod snapshot;
pub mod stamp;
pub mod stub;
pub mod order;
pub mod text;
pub mod validation;
pub mod verified;

use crate::text::{all_digits, digit_char, digit_value, lemma_digit_char};

verus! {

/// Hash of one stored content blob: 32 bytes.
#[derive(Debug, Clone, Copy)]
pub struct ContentId(pub [u8; 32]);

impl PartialEq for ContentId {
    fn eq(&self, other: &Self) -> (r: bool) {
        let mut i: usize = 0;
        while i < 32
            invariant
                i <= 32,
                forall|j: int| 0 <= j < i ==> self.0@[j] == other.0@[j],
            decreases 32 - i,
        {
            if self.0[i] != other.0[i] {
                return false;
            }
            i = i + 1;
        }
        assert(self.0@ =~= other.0@);
        true
    }
}

impl vstd::std_specs::cmp::PartialEqSpecImpl for ContentId {
    open spec fn obeys_eq_spec() -> bool {
        true
    }

    open spec fn eq_spec(&self, other: &ContentId) -> bool {
        self.0@ == other.0@
    }
}

impl Eq for ContentId {}

/// Lowercase hex rendering of a byte sequence: two digits per byte.
pub open spec fn hex_spec(b: Seq<u8>) -> Seq<char> {
    Seq::new(
        2 * b.len(),
        |i: int|
            if i % 2 == 0 {
                digit_char((b[i / 2] / 16) as nat)
            } else {
                digit_char((b[i / 2] % 16) as nat)
            },
    )
}

/// The bytes a run of hex digit pairs spells.
pub open spec fn hex_bytes_spec(s: Seq<char>) -> Seq<u8> {
    Seq::new(
        s.len() / 2,
        |i: int| (digit_value(s[2 * i], 16) * 16 + digit_value(s[2 * i + 1], 16)) as u8,
    )
}

/// What [`ContentId::from_hex`] accepts: exactly 64 hex digits (either
/// case), decoded pairwise.
pub open spec fn from_hex_spec(s: Seq<char>) -> Option<Seq<u8>> {
    if s.len() == 64 && all_digits(s, 16) {
        Some(hex_bytes_spec(s))
    } else {
        None
    }
}

/// Rendering an id as hex and parsing it back gives the id.
pub proof fn lemma_hex_round_trip(b: Seq<u8>)
    requires
        b.len() == 32,
    ensures
        hex_spec(b).len() == 64,
        all_digits(hex_spec(b), 16),
        from_hex_spec(hex_spec(b)) == Some(b),
{
    let h = hex_spec(b);
    assert forall|i: int| 0 <= i < h.len() implies digit_value(#[trigger] h[i], 16) >= 0 by {
        if i % 2 == 0 {
            lemma_digit_char((b[i / 2] / 16) as nat, 16);
        } else {
            lemma_digit_char((b[i / 2] % 16) as nat, 16);
        }
    }
    assert forall|i: int| 0 <= i < 32 implies #[trigger] hex_bytes_spec(h)[i] == b[i] by {
        assert((2 * i) / 2 == i);
        assert((2 * i + 1) / 2 == i);
        assert((2 * i) % 2 == 0);
        assert((2 * i + 1) % 2 == 1);
        lemma_digit_char((b[i] / 16) as nat, 16);
        lemma_digit_char((b[i] % 16) as nat, 16);
    }
    assert(hex_bytes_spec(h) =~= b);
}

/// `c` with an ASCII capital letter lowered, as `to_ascii_lowercase` does.
pub open spec fn ascii_lower(c: char) -> char {
    if 'A' <= c && c <= 'Z' {
        ((c as int + 32) as u8) as char
    } else {
        c
    }
}

/// A hex digit rendered back from its value is the digit lowered.
proof fn lemma_digit_char_lower(c: char)
    requires
        digit_value(c, 16) >= 0,
    ensures
        digit_char(digit_value(c, 16) as nat) == ascii_lower(c),
{
}

/// Parsing 64 hex digits into an id and rendering it again gives the
/// input with its capital letters lowered.
pub proof fn lemma_hex_lowercase(s: Seq<char>)
    requires
        from_hex_spec(s) is Some,
    ensures
        hex_spec(from_hex_spec(s)->0) == s.map_values(|c: char| ascii_lower(c)),
{
    let b = hex_bytes_spec(s);
    let h = hex_spec(b);
    let l = s.map_values(|c: char| ascii_lower(c));
    assert forall|i: int| 0 <= i < 64 implies #[trigger] h[i] == l[i] by {
        let k = i / 2;
        assert(0 <= k < 32);
        let hi = digit_value(s[2 * k], 16);
        let lo = digit_value(s[2 * k + 1], 16);
        assert(0 <= hi < 16 && 0 <= lo < 16);
        assert(b[k] == (hi * 16 + lo) as u8);
        assert(b[k] / 16 == hi && b[k] % 16 == lo) by (nonlinear_arith)
            requires
                0 <= hi < 16,
                0 <= lo < 16,
                b[k] == hi * 16 + lo,
        ;
        lemma_digit_char_lower(s[2 * k]);
        lemma_digit_char_lower(s[2 * k + 1]);
        if i % 2 == 0 {
            assert(i == 2 * k);
        } else {
            assert(i == 2 * k + 1);
        }
    }
    assert(h =~= l);
}

impl ContentId {
    /// The lowercase hex form of this id (64 digits).
    pub open spec fn hex(&self) -> Seq<char> {
        hex_spec(self.0@)
    }

    /// Render the id as 64 lowercase hex digits.
    pub fn to_string(&self) -> (s: String)
        ensures
            s@ == self.hex(),
    {
        let v = self.hex_chars();
        crate::text::string_of(&v)
    }

    /// The id's 64 lowercase hex digits as characters.
    pub fn hex_chars(&self) -> (v: Vec<char>)
        ensures
            v@ == self.hex(),
    {
        let mut v: Vec<char> = Vec::new();
        for k in 0..32usize
            invariant
                v@ =~= hex_spec(self.0@).take(2 * k),
        {
            let byte = self.0[k];
            let hi = hex_digit((byte / 16) as u8);
            let lo = hex_digit((byte % 16) as u8);
            v.push(hi);
            v.push(lo);
            assert(v@ =~= hex_spec(self.0@).take(2 * (k + 1))) by {
                assert((2 * k) as int / 2 == k);
                assert((2 * k + 1) as int / 2 == k);
            }
        }
        v
    }

    /// Parse the 64-hex-digit form: `None` for anything that is not
    /// exactly 64 hex digits.
    pub fn from_hex(text: &str) -> (r: Option<ContentId>)
        ensures
            match r {
                Some(id) => from_hex_spec(text@) == Some(id.0@),
                None => from_hex_spec(text@) is None,
            },
    {
        let v = crate::text::chars_of(text);
        Self::from_hex_chars(&v)
    }

    /// [`Self::from_hex`] over characters.
    pub fn from_hex_chars(v: &Vec<char>) -> (r: Option<ContentId>)
        ensures
            match r {
                Some(id) => from_hex_spec(v@) == Some(id.0@),
                None => from_hex_spec(v@) is None,
            },
    {
        if v.len() != 64 {
            return None;
        }
        let mut out = [0u8; 32];
        for k in 0..32usize
            invariant
                v.len() == 64,
                forall|j: int| 0 <= j < 2 * k ==> digit_value(#[trigger] v@[j], 16) >= 0,
                forall|j: int| 0 <= j < k ==> #[trigger] out@[j] == hex_bytes_spec(v@)[j],
        {
            let hi = hex_value(v[2 * k]);
            let lo = hex_value(v[2 * k + 1]);
            match (hi, lo) {
                (Some(h), Some(l)) => {
                    out[k] = h * 16 + l;
                },
                _ => {
                    assert(!all_digits(v@, 16));
                    return None;
                },
            }
        }
        assert(all_digits(v@, 16));
        assert(out@ =~= hex_bytes_spec(v@));
        Some(ContentId(out))
    }
}

fn hex_digit(d: u8) -> (c: char)
    requires
        d < 16,
    ensures
        c == digit_char(d as nat),
{
    if d < 10 {
        (d + 48u8) as char
    } else {
        (d - 10 + 97u8) as char
    }
}

fn hex_value(c: char) -> (r: Option<u8>)
    ensures
        match r {
            Some(v) => digit_value(c, 16) == v as int && v < 16,
            None => digit_value(c, 16) == -1,
        },
{
    if '0' <= c && c <= '9' {
        Some(((c as u32) - ('0' as u32)) as u8)
    } else if 'a' <= c && c <= 'f' {
        Some(((c as u32) - ('a' as u32) + 10) as u8)
    } else if 'A' <= c && c <= 'F' {
        Some(((c as u32) - ('A' as u32) + 10) as u8)
    } else {
        None
    }
}


/// `std::io::Error`, carried through the store's error type.
#[verifier::external_type_specification]
#[verifier::external_body]
pub struct ExIoError(std::io::Error);

/// What a store operation can fail with.
#[derive(Debug)]
pub enum Error {
    /// The entry exists but its bytes no longer match the address.
    Corrupted(ContentId),
    /// The id is not in the store.
    UnknownContent(ContentId),
    /// A reference was released more times than it was added, or
    /// released on unknown content.
    RefCountUnderflow(ContentId),
    /// The filesystem refused.
    Io(std::io::Error),
}

/// `<std::io::Error as Display>::fmt`, rendered to a string. Nothing
/// is stated of the text, which depends on the operating system's
/// message for the error.
#[verifier::external_body]
fn io_error_text(e: &std::io::Error) -> String {
    e.to_string()
}

impl Error {
    /// The error's message.
    pub fn to_string(&self) -> (s: String)
        ensures
            match self {
                Error::Corrupted(id) => s@ == "store content "@ + id.hex() + " failed hash verification"@,
                Error::UnknownContent(id) => s@ == "content "@ + id.hex() + " not in store"@,
                Error::RefCountUnderflow(id) => s@ == "reference count underflow for "@ + id.hex(),
                Error::Io(_) => s@.len() >= 16 && s@.take(16) == "store io error: "@,
            },
    {
        match self {
            Error::Corrupted(id) => crate::text::cat3("store content ", id.to_string().as_str(), " failed hash verification"),
            Error::UnknownContent(id) => crate::text::cat3("content ", id.to_string().as_str(), " not in store"),
            Error::RefCountUnderflow(id) => crate::text::cat2("reference count underflow for ", id.to_string().as_str()),
            Error::Io(e) => {
                let s = crate::text::cat2("store io error: ", io_error_text(e).as_str());
                proof {
                    reveal_strlit("store io error: ");
                    assert(s@.take(16) =~= "store io error: "@);
                }
                s
            },
        }
    }
}

/// A store operation's outcome.
pub type Result<T> = std::result::Result<T, Error>;

/// Hash-addressed content store with reference counting.
///
/// - `put` with identical bytes always returns the same id and stores
///   the data once; it takes no reference.
/// - every `add_ref` pairs with one `release_ref`; releasing below
///   zero is [`Error::RefCountUnderflow`].
/// - `get` re-hashes and reports [`Error::Corrupted`] instead of
///   returning mismatched bytes.
pub trait Store {
    /// Store bytes, deduplicated by content.
    fn put(&mut self, content: &[u8]) -> Result<ContentId>;

    /// Fetch bytes by id, verifying the hash before returning.
    fn get(&self, id: &ContentId) -> Result<Vec<u8>>;

    /// True if the store holds this content.
    fn contains(&self, id: &ContentId) -> bool;

    /// Increment the reference count.
    fn add_ref(&mut self, id: &ContentId) -> Result<()>;

    /// Decrement the reference count.
    fn release_ref(&mut self, id: &ContentId) -> Result<()>;

    /// Current reference count (0 if stored but never referenced).
    fn ref_count(&self, id: &ContentId) -> Result<u64>;
}

} // verus!
