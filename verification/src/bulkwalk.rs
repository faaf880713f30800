//! Decoding of the attribute buffers that macOS `getattrlistbulk(2)`
//! fills during a bulk directory walk.
//!
//! Each record in the buffer is laid out as
//!
//! ```text
//! u32  record length (a multiple of 4, at least 36)
//! u32  returned common attributes
//! u32  returned volume attributes   (must be 0)
//! u32  returned directory attributes (must be 0)
//! u32  returned file attributes
//! u32  per-entry error slot          (must be 0)
//! i32  name offset, relative to byte 24
//! u32  name length, including the trailing NUL
//! u32  object type
//! [i64 seconds, i64 nanoseconds]     when the modification time is returned
//! [u32 st_mode]                      when the access mask is returned
//! [u64 data length]                  when the file data length is returned
//! ...name bytes...
//! ```
//!
//! All integers are little-endian. The system calls themselves, the
//! thread-local scratch buffer and the depth-first walk over open
//! directories live with the caller; this module decides what every
//! byte of a returned buffer means.

use vstd::prelude::*;

use crate::text::chars_of;
use crate::text::string_of;

verus! {

/// Initial reusable buffer capacity per worker thread (32KB).
pub const INITIAL_BUFFER_CAPACITY: usize = 32768;
/// Maximum dynamic scratch buffer ceiling (1MB).
pub const MAX_BUFFER_CAPACITY: usize = 1048576;

/// Object type of a regular file.
pub const VREG: u32 = 1;
/// Object type of a directory.
pub const VDIR: u32 = 2;
/// Object type of a symbolic link.
pub const VLNK: u32 = 5;

/// Common attribute: the entry's name.
pub const ATTR_CMN_NAME: u32 = 0x0000_0001;
/// Common attribute: the object type.
pub const ATTR_CMN_OBJTYPE: u32 = 0x0000_0008;
/// Common attribute: the modification time.
pub const ATTR_CMN_MODTIME: u32 = 0x0000_0400;
/// Common attribute: the access mask (full `st_mode`).
pub const ATTR_CMN_ACCESSMASK: u32 = 0x0002_0000;
/// Common attribute: the returned-attributes bitmap itself.
pub const ATTR_CMN_RETURNED_ATTRS: u32 = 0x8000_0000;
/// File attribute: the data length.
pub const ATTR_FILE_DATALENGTH: u32 = 0x0000_0200;

/// Every common attribute the walk requests: name, object type,
/// modification time, access mask and the returned bitmap.
pub const REQUEST_COMMON: u32 = 0x8002_0409;
/// Every file attribute the walk requests: the data length.
pub const REQUEST_FILE: u32 = 0x0000_0200;

/// Why a returned buffer was refused. Any of these sends the caller
/// back to the portable walk.
#[derive(Debug, Clone, Copy, PartialEq, Eq, Structural)]
pub enum BulkParseError {
    /// Fewer than four bytes were left for the next record's length.
    LengthOverrun,
    /// A record length below 36 or not a multiple of four.
    MalformedLength,
    /// A record length that runs past the end of the buffer.
    RecordOverrun,
    /// A record shorter than its fixed header.
    RecordTooShort,
    /// Attributes beyond those requested were returned.
    UnexpectedAttributes,
    /// The name or the object type was not returned.
    MissingNameOrType,
    /// The per-entry error slot was set.
    EntryError,
    /// A zero name length or a negative name offset.
    BadNameReference,
    /// A name offset that does not fit the address space.
    BadNameOffset,
    /// Name bytes past the end of the record.
    NameOverrun,
    /// No room for the object type before the name.
    ShortObjType,
    /// No room for the modification time before the name.
    ShortModTime,
    /// No room for the access mask before the name.
    ShortAccessMask,
    /// No room for the data length before the name.
    ShortDataLength,
    /// The name does not end in a NUL byte.
    MissingNul,
}

/// One walked filesystem entry, relative to the walk root.
#[derive(Debug, Clone, PartialEq, Eq)]
pub struct BulkEntry {
    /// Slash-separated path relative to the walk root.
    pub rel_path: String,
    /// True for directory entries.
    pub is_dir: bool,
    /// True for symlink entries; targets are never followed.
    pub is_symlink: bool,
    /// True for regular-file entries.
    pub is_file: bool,
    /// Data length in bytes (0 when not returned).
    pub size: u64,
    /// Modification time, seconds since the epoch.
    pub mtime_secs: u64,
    /// Modification time, sub-second nanoseconds.
    pub mtime_nanos: u32,
    /// Full `st_mode`, type bits included (0 when not returned).
    pub mode: u32,
}

/// A walked entry as plain values.
pub struct BulkEntryView {
    pub rel_path: Seq<char>,
    pub is_dir: bool,
    pub is_symlink: bool,
    pub is_file: bool,
    pub size: u64,
    pub mtime_secs: u64,
    pub mtime_nanos: u32,
    pub mode: u32,
}

impl View for BulkEntry {
    type V = BulkEntryView;

    open spec fn view(&self) -> BulkEntryView {
        BulkEntryView {
            rel_path: self.rel_path@,
            is_dir: self.is_dir,
            is_symlink: self.is_symlink,
            is_file: self.is_file,
            size: self.size,
            mtime_secs: self.mtime_secs,
            mtime_nanos: self.mtime_nanos,
            mode: self.mode,
        }
    }
}

pub open spec fn entries_view(s: Seq<BulkEntry>) -> Seq<BulkEntryView> {
    s.map_values(|e: BulkEntry| e@)
}

pub open spec fn dirs_view(s: Seq<(Vec<u8>, String)>) -> Seq<(Seq<u8>, Seq<char>)> {
    s.map_values(|d: (Vec<u8>, String)| (d.0@, d.1@))
}

/// The characters of a UTF-8 decoding that replaces every invalid sequence
/// with U+FFFD: a function of the bytes alone.
pub uninterp spec fn lossy_utf8(bytes: Seq<u8>) -> Seq<char>;

/// `String::from_utf8_lossy`, made owned. Its documentation promises
/// that valid UTF-8 comes back unchanged; what replaces an invalid
/// sequence is named, not stated.
#[verifier::external_body]
fn utf8_lossy(bytes: &[u8]) -> (s: String)
    ensures
        s@ == lossy_utf8(bytes@),
        vstd::utf8::valid_utf8(bytes@) ==> s@ == vstd::utf8::decode_utf8(bytes@),
{
    String::from_utf8_lossy(bytes).into_owned()
}

// --- little-endian reads ---

/// The little-endian `u32` at `at`.
pub open spec fn u32_le(s: Seq<u8>, at: int) -> u32 {
    (s[at] + s[at + 1] * 256 + s[at + 2] * 65536 + s[at + 3] * 16777216) as u32
}

/// The little-endian two's-complement `i32` at `at`.
pub open spec fn i32_le(s: Seq<u8>, at: int) -> int {
    let u = u32_le(s, at);
    if u < 0x8000_0000 { u as int } else { u - 0x1_0000_0000 }
}

/// The little-endian `u64` at `at`.
pub open spec fn u64_le(s: Seq<u8>, at: int) -> u64 {
    (u32_le(s, at) + u32_le(s, at + 4) * 0x1_0000_0000) as u64
}

/// The little-endian two's-complement `i64` at `at`.
pub open spec fn i64_le(s: Seq<u8>, at: int) -> int {
    let u = u64_le(s, at);
    if u < 0x8000_0000_0000_0000 { u as int } else { u - 0x1_0000_0000_0000_0000 }
}

fn read_u32(buf: &[u8], at: usize) -> (r: u32)
    requires
        at + 4 <= buf@.len(),
    ensures
        r == u32_le(buf@, at as int),
{
    let b0 = buf[at] as u32;
    let b1 = buf[at + 1] as u32;
    let b2 = buf[at + 2] as u32;
    let b3 = buf[at + 3] as u32;
    b0 + b1 * 256 + b2 * 65536 + b3 * 16777216
}

fn read_i32(buf: &[u8], at: usize) -> (r: i32)
    requires
        at + 4 <= buf@.len(),
    ensures
        r as int == i32_le(buf@, at as int),
{
    let u = read_u32(buf, at);
    if u < 0x8000_0000 {
        u as i32
    } else {
        let low = (u - 0x8000_0000) as i32;
        low - 0x4000_0000 - 0x4000_0000
    }
}

fn read_u64(buf: &[u8], at: usize) -> (r: u64)
    requires
        at + 8 <= buf@.len(),
    ensures
        r == u64_le(buf@, at as int),
{
    let n = buf.len();
    assert(at + 4 < n);
    let lo = read_u32(buf, at) as u64;
    let hi = read_u32(buf, at + 4) as u64;
    lo + hi * 0x1_0000_0000
}

fn read_i64(buf: &[u8], at: usize) -> (r: i64)
    requires
        at + 8 <= buf@.len(),
    ensures
        r as int == i64_le(buf@, at as int),
{
    let u = read_u64(buf, at);
    if u < 0x8000_0000_0000_0000 {
        u as i64
    } else {
        let low = (u - 0x8000_0000_0000_0000) as i64;
        low - 0x4000_0000_0000_0000 - 0x4000_0000_0000_0000
    }
}


// --- what one record means ---

pub open spec fn has_bit(x: u32, bit: u32) -> bool {
    (x & bit) != 0
}

/// Where the name bytes begin: the name offset counts from byte 24.
pub open spec fn name_start(r: Seq<u8>) -> int {
    24 + i32_le(r, 24)
}

/// The name length, trailing NUL included.
pub open spec fn name_len(r: Seq<u8>) -> int {
    u32_le(r, 28) as int
}

/// Offset of the access mask: after the object type and, when it was
/// returned, the modification time.
pub open spec fn accessmask_at(common: u32) -> int {
    if has_bit(common, ATTR_CMN_MODTIME) { 52 } else { 36 }
}

/// Offset of the data length: after the access mask when it was returned.
pub open spec fn datalength_at(common: u32) -> int {
    accessmask_at(common) + if has_bit(common, ATTR_CMN_ACCESSMASK) { 4int } else { 0int }
}

/// Nanoseconds clamped into `0..=999_999_999`.
pub open spec fn clamp_nanos(n: int) -> u32 {
    if n < 0 { 0 } else if n > 999_999_999 { 999_999_999 } else { n as u32 }
}

/// The error a record's fixed part is refused with, if any, in the
/// order the checks are made.
pub open spec fn record_error(r: Seq<u8>) -> Option<BulkParseError> {
    let common = u32_le(r, 4);
    let filebits = u32_le(r, 16);
    let ns = name_start(r);
    let nl = name_len(r);
    if r.len() < 36 {
        Some(BulkParseError::RecordTooShort)
    } else if (common & !REQUEST_COMMON) != 0 || u32_le(r, 8) != 0 || u32_le(r, 12) != 0
        || (filebits & !REQUEST_FILE) != 0 {
        Some(BulkParseError::UnexpectedAttributes)
    } else if !has_bit(common, ATTR_CMN_NAME) || !has_bit(common, ATTR_CMN_OBJTYPE) {
        Some(BulkParseError::MissingNameOrType)
    } else if u32_le(r, 20) != 0 {
        Some(BulkParseError::EntryError)
    } else if nl == 0 || i32_le(r, 24) < 0 {
        Some(BulkParseError::BadNameReference)
    } else if ns > isize::MAX {
        Some(BulkParseError::BadNameOffset)
    } else if ns + nl > r.len() {
        Some(BulkParseError::NameOverrun)
    } else if ns < 36 {
        Some(BulkParseError::ShortObjType)
    } else if has_bit(common, ATTR_CMN_MODTIME) && ns < 52 {
        Some(BulkParseError::ShortModTime)
    } else if has_bit(common, ATTR_CMN_ACCESSMASK) && ns < accessmask_at(common) + 4 {
        Some(BulkParseError::ShortAccessMask)
    } else if has_bit(filebits, ATTR_FILE_DATALENGTH) && ns < datalength_at(common) + 8 {
        Some(BulkParseError::ShortDataLength)
    } else if r[ns + nl - 1] != 0 {
        Some(BulkParseError::MissingNul)
    } else {
        None
    }
}

/// The raw name bytes, without the trailing NUL.
pub open spec fn raw_name(r: Seq<u8>) -> Seq<u8> {
    r.subrange(name_start(r), name_start(r) + name_len(r) - 1)
}

/// The name a record's raw bytes decode to: exactly their UTF-8
/// decoding when they are valid UTF-8, else the lossy decoding.
pub open spec fn decoded_name(raw: Seq<u8>) -> Seq<char> {
    if vstd::utf8::valid_utf8(raw) {
        vstd::utf8::decode_utf8(raw)
    } else {
        lossy_utf8(raw)
    }
}

/// An ASCII name is valid UTF-8 and decodes to its bytes, one
/// character each.
pub proof fn lemma_ascii_name(raw: Seq<u8>)
    requires
        forall|i: int| 0 <= i < raw.len() ==> #[trigger] raw[i] < 128,
    ensures
        vstd::utf8::valid_utf8(raw),
        decoded_name(raw) == raw.map_values(|b: u8| b as char),
    decreases raw.len(),
{
    if raw.len() > 0 {
        let b = raw[0];
        assert(b & 0x7f == b) by (bit_vector)
            requires
                b < 128,
        ;
        let rest = raw.subrange(1, raw.len() as int);
        assert(vstd::utf8::pop_first_scalar(raw) =~= rest);
        assert forall|i: int| 0 <= i < rest.len() implies #[trigger] rest[i] < 128 by {
            assert(rest[i] == raw[i + 1]);
        }
        lemma_ascii_name(rest);
        assert(raw.map_values(|b: u8| b as char) =~= seq![b as char] + rest.map_values(|b: u8| b as char));
    } else {
        assert(raw.map_values(|b: u8| b as char) =~= Seq::<char>::empty());
    }
}

/// `prefix/name`, or `name` at the walk root.
pub open spec fn child_rel(prefix: Seq<char>, name: Seq<char>) -> Seq<char> {
    if prefix.len() == 0 { name } else { prefix.push('/') + name }
}

/// The entry a well-formed record describes, under `prefix`.
pub open spec fn record_entry(r: Seq<u8>, prefix: Seq<char>) -> BulkEntryView {
    let common = u32_le(r, 4);
    let filebits = u32_le(r, 16);
    let vtype = u32_le(r, 32);
    let secs = i64_le(r, 36);
    let timed = has_bit(common, ATTR_CMN_MODTIME) && secs >= 0;
    BulkEntryView {
        rel_path: child_rel(prefix, decoded_name(raw_name(r))),
        is_dir: vtype == VDIR,
        is_symlink: vtype == VLNK,
        is_file: vtype == VREG,
        size: if has_bit(filebits, ATTR_FILE_DATALENGTH) { u64_le(r, datalength_at(common)) } else { 0 },
        mtime_secs: if timed { secs as u64 } else { 0 },
        mtime_nanos: if timed { clamp_nanos(i64_le(r, 44)) } else { 0 },
        mode: if has_bit(common, ATTR_CMN_ACCESSMASK) { u32_le(r, accessmask_at(common)) } else { 0 },
    }
}

/// Whether a well-formed record is passed over: an empty name, a name
/// holding a NUL, or a decoded name of `.` or `..`.
pub open spec fn record_skipped(r: Seq<u8>) -> bool {
    let raw = raw_name(r);
    let name = decoded_name(raw);
    raw.len() == 0 || raw.contains(0u8) || name == seq!['.'] || name == seq!['.', '.']
}

/// `dir.join(name)` over bytes, as `PathBuf::push` does it on Unix.
pub open spec fn bytes_join(dir: Seq<u8>, name: Seq<u8>) -> Seq<u8> {
    if name.len() > 0 && name[0] == 47u8 {
        name
    } else if dir.len() == 0 || dir.last() == 47u8 {
        dir + name
    } else {
        dir.push(47u8) + name
    }
}

/// What a stretch of records produced: entries, directories to descend
/// into (absolute path bytes and relative prefix), and the error that
/// stopped it, if one did.
pub struct BulkRun {
    pub entries: Seq<BulkEntryView>,
    pub dirs: Seq<(Seq<u8>, Seq<char>)>,
    pub error: Option<BulkParseError>,
}

pub open spec fn failed_run(e: BulkParseError) -> BulkRun {
    BulkRun { entries: seq![], dirs: seq![], error: Some(e) }
}

/// What one record produces.
pub open spec fn record_run(r: Seq<u8>, dir: Seq<u8>, prefix: Seq<char>) -> BulkRun {
    match record_error(r) {
        Some(e) => failed_run(e),
        None => if record_skipped(r) {
            BulkRun { entries: seq![], dirs: seq![], error: None }
        } else {
            let v = record_entry(r, prefix);
            BulkRun {
                entries: seq![v],
                dirs: if v.is_dir { seq![(bytes_join(dir, raw_name(r)), v.rel_path)] } else { seq![] },
                error: None,
            }
        },
    }
}

pub open spec fn run_result(run: BulkRun) -> Result<(), BulkParseError> {
    match run.error {
        Some(e) => Err(e),
        None => Ok(()),
    }
}

fn contains_zero(raw: &[u8]) -> (r: bool)
    ensures
        r == raw@.contains(0u8),
{
    let mut i: usize = 0;
    while i < raw.len()
        invariant
            i <= raw@.len(),
            forall|k: int| 0 <= k < i ==> raw@[k] != 0u8,
        decreases raw@.len() - i,
    {
        if raw[i] == 0 {
            assert(raw@[i as int] == 0u8);
            return true;
        }
        i = i + 1;
    }
    false
}

fn is_dot_or_dotdot(v: &Vec<char>) -> (r: bool)
    ensures
        r == (v@ == seq!['.'] || v@ == seq!['.', '.']),
{
    if v.len() == 1 && v[0] == '.' {
        assert(v@ =~= seq!['.']);
        true
    } else if v.len() == 2 && v[0] == '.' && v[1] == '.' {
        assert(v@ =~= seq!['.', '.']);
        true
    } else {
        false
    }
}

fn child_rel_chars(prefix: &str, name: &Vec<char>) -> (r: Vec<char>)
    ensures
        r@ == child_rel(prefix@, name@),
{
    let mut v = chars_of(prefix);
    if v.len() == 0 {
        return name.clone();
    }
    v.push('/');
    crate::text::extend_chars(&mut v, name);
    v
}

fn join_bytes(dir: &[u8], name: &[u8]) -> (r: Vec<u8>)
    ensures
        r@ == bytes_join(dir@, name@),
{
    if name.len() > 0 && name[0] == 47u8 {
        return vstd::slice::slice_to_vec(name);
    }
    let mut out = vstd::slice::slice_to_vec(dir);
    if !(dir.len() == 0 || dir[dir.len() - 1] == 47u8) {
        out.push(47u8);
    }
    let ghost base = out@;
    let mut i: usize = 0;
    while i < name.len()
        invariant
            i <= name@.len(),
            out@ == base + name@.take(i as int),
        decreases name@.len() - i,
    {
        out.push(name[i]);
        i = i + 1;
        assert(name@.take(i as int) =~= name@.take(i - 1).push(name@[i - 1]));
    }
    assert(name@.take(name@.len() as int) =~= name@);
    out
}

/// Decode one record: the fixed header, the attributes that were
/// requested in the kernel's fixed order, then the name. A well-formed
/// record for a real entry appends it to `out`, and a directory is
/// also pushed onto `stack` with its path under `dir` and its relative
/// path as the prefix of its own entries.
pub fn parse_record(
    record: &[u8],
    dir: &[u8],
    prefix: &str,
    out: &mut Vec<BulkEntry>,
    stack: &mut Vec<(Vec<u8>, String)>,
) -> (res: Result<(), BulkParseError>)
    ensures
        entries_view(final(out)@) == entries_view(old(out)@) + record_run(record@, dir@, prefix@).entries,
        dirs_view(final(stack)@) == dirs_view(old(stack)@) + record_run(record@, dir@, prefix@).dirs,
        res == run_result(record_run(record@, dir@, prefix@)),
{
    let ghost r = record@;
    proof {
        assert(entries_view(out@) + seq![] =~= entries_view(out@));
        assert(dirs_view(stack@) + seq![] =~= dirs_view(stack@));
    }
    let len = record.len();
    if len < 36 {
        return Err(BulkParseError::RecordTooShort);
    }
    let common = read_u32(record, 4);
    let volattr = read_u32(record, 8);
    let dirattr = read_u32(record, 12);
    let filebits = read_u32(record, 16);
    if (common & !REQUEST_COMMON) != 0 || volattr != 0 || dirattr != 0
        || (filebits & !REQUEST_FILE) != 0 {
        return Err(BulkParseError::UnexpectedAttributes);
    }
    if (common & ATTR_CMN_NAME) == 0 || (common & ATTR_CMN_OBJTYPE) == 0 {
        return Err(BulkParseError::MissingNameOrType);
    }
    if read_u32(record, 20) != 0 {
        return Err(BulkParseError::EntryError);
    }
    let dataoffset = read_i32(record, 24);
    let name_len_raw = read_u32(record, 28);
    if name_len_raw == 0 || dataoffset < 0 {
        return Err(BulkParseError::BadNameReference);
    }
    let d = dataoffset as usize;
    if d > (isize::MAX as usize) - 24 {
        return Err(BulkParseError::BadNameOffset);
    }
    let ns: usize = 24 + d;
    let nl = name_len_raw as usize;
    if ns > len || nl > len - ns {
        return Err(BulkParseError::NameOverrun);
    }
    if ns < 36 {
        return Err(BulkParseError::ShortObjType);
    }
    let vtype = read_u32(record, 32);
    let mut pos: usize = 36;
    let mut mtime_secs: u64 = 0;
    let mut mtime_nanos: u32 = 0;
    if (common & ATTR_CMN_MODTIME) != 0 {
        if ns < pos + 16 {
            return Err(BulkParseError::ShortModTime);
        }
        let secs = read_i64(record, pos);
        let nanos = read_i64(record, pos + 8);
        pos = pos + 16;
        if secs >= 0 {
            mtime_secs = secs as u64;
            mtime_nanos = if nanos < 0 {
                0
            } else if nanos > 999_999_999 {
                999_999_999
            } else {
                nanos as u32
            };
        }
    }
    assert(pos == accessmask_at(common));
    let mut mode: u32 = 0;
    if (common & ATTR_CMN_ACCESSMASK) != 0 {
        if ns < pos + 4 {
            return Err(BulkParseError::ShortAccessMask);
        }
        mode = read_u32(record, pos);
        pos = pos + 4;
    }
    assert(pos == datalength_at(common));
    let mut size: u64 = 0;
    if (filebits & ATTR_FILE_DATALENGTH) != 0 {
        if ns < pos + 8 {
            return Err(BulkParseError::ShortDataLength);
        }
        size = read_u64(record, pos);
    }
    if record[ns + nl - 1] != 0 {
        return Err(BulkParseError::MissingNul);
    }
    assert(record_error(r) is None);
    let raw = &record[ns..ns + nl - 1];
    assert(raw@ == raw_name(r));
    if raw.len() == 0 || contains_zero(raw) {
        return Ok(());
    }
    let name = utf8_lossy(raw);
    let name_chars = chars_of(name.as_str());
    if is_dot_or_dotdot(&name_chars) {
        return Ok(());
    }
    assert(!record_skipped(r));
    let rel = child_rel_chars(prefix, &name_chars);
    let is_dir = vtype == VDIR;
    let entry = BulkEntry {
        rel_path: string_of(&rel),
        is_dir,
        is_symlink: vtype == VLNK,
        is_file: vtype == VREG,
        size,
        mtime_secs,
        mtime_nanos,
        mode,
    };
    assert(entry@ == record_entry(r, prefix@));
    if is_dir {
        let child = join_bytes(dir, raw);
        stack.push((child, string_of(&rel)));
        proof {
            assert(dirs_view(stack@) =~= dirs_view(old(stack)@) + record_run(r, dir@, prefix@).dirs);
        }
    } else {
        proof {
            assert(dirs_view(stack@) =~= dirs_view(old(stack)@) + record_run(r, dir@, prefix@).dirs);
        }
    }
    out.push(entry);
    proof {
        assert(entries_view(out@) =~= entries_view(old(out)@) + record_run(r, dir@, prefix@).entries);
    }
    Ok(())
}


/// `first` followed by `rest`: the entries and directories of both in
/// order, stopped by `rest`'s error.
pub open spec fn then_run(first: BulkRun, rest: BulkRun) -> BulkRun {
    BulkRun {
        entries: first.entries + rest.entries,
        dirs: first.dirs + rest.dirs,
        error: rest.error,
    }
}

/// What the next `n` records of `buf`, from `offset` on, produce: each
/// record length is checked against the buffer before the record is
/// decoded, and the first refused record ends the run.
pub open spec fn bulk_run(buf: Seq<u8>, n: nat, offset: int, dir: Seq<u8>, prefix: Seq<char>) -> BulkRun
    decreases n,
{
    if n == 0 {
        BulkRun { entries: seq![], dirs: seq![], error: None }
    } else if offset + 4 > buf.len() {
        failed_run(BulkParseError::LengthOverrun)
    } else {
        let rl = u32_le(buf, offset) as int;
        if rl < 36 || rl % 4 != 0 {
            failed_run(BulkParseError::MalformedLength)
        } else if offset + rl > buf.len() {
            failed_run(BulkParseError::RecordOverrun)
        } else {
            let one = record_run(buf.subrange(offset, offset + rl), dir, prefix);
            if one.error is Some {
                one
            } else {
                then_run(one, bulk_run(buf, (n - 1) as nat, offset + rl, dir, prefix))
            }
        }
    }
}

proof fn lemma_then_assoc(a: BulkRun, b: BulkRun, c: BulkRun)
    requires
        b.error is None,
    ensures
        then_run(then_run(a, b), c) == then_run(a, then_run(b, c)),
{
    assert(then_run(then_run(a, b), c).entries =~= then_run(a, then_run(b, c)).entries);
    assert(then_run(then_run(a, b), c).dirs =~= then_run(a, then_run(b, c)).dirs);
}

/// Decode exactly `n` records from the front of `buf`. Whatever lies
/// after them (a stale tail from an earlier, longer read) is never
/// looked at. Records decoded before a refused one stay appended.
pub fn parse_bulk_buffer(
    buf: &[u8],
    n: usize,
    dir: &[u8],
    prefix: &str,
    out: &mut Vec<BulkEntry>,
    stack: &mut Vec<(Vec<u8>, String)>,
) -> (res: Result<(), BulkParseError>)
    ensures
        entries_view(final(out)@) == entries_view(old(out)@) + bulk_run(buf@, n as nat, 0, dir@, prefix@).entries,
        dirs_view(final(stack)@) == dirs_view(old(stack)@) + bulk_run(buf@, n as nat, 0, dir@, prefix@).dirs,
        res == run_result(bulk_run(buf@, n as nat, 0, dir@, prefix@)),
{
    let ghost total = bulk_run(buf@, n as nat, 0, dir@, prefix@);
    let ghost done = BulkRun { entries: seq![], dirs: seq![], error: None };
    proof {
        assert(then_run(done, total).entries =~= total.entries);
        assert(then_run(done, total).dirs =~= total.dirs);
        assert(entries_view(out@) + seq![] =~= entries_view(out@));
        assert(dirs_view(stack@) + seq![] =~= dirs_view(stack@));
    }
    let len = buf.len();
    let mut offset: usize = 0;
    let mut i: usize = 0;
    while i < n
        invariant
            i <= n,
            offset <= len,
            len == buf@.len(),
            done.error is None,
            total == bulk_run(buf@, n as nat, 0, dir@, prefix@),
            total == then_run(done, bulk_run(buf@, (n - i) as nat, offset as int, dir@, prefix@)),
            entries_view(out@) == entries_view(old(out)@) + done.entries,
            dirs_view(stack@) == dirs_view(old(stack)@) + done.dirs,
        decreases n - i,
    {
        let ghost rest = bulk_run(buf@, (n - i) as nat, offset as int, dir@, prefix@);
        if len - offset < 4 {
            proof {
                assert(then_run(done, rest).entries =~= done.entries);
                assert(then_run(done, rest).dirs =~= done.dirs);
                assert(entries_view(out@) == entries_view(old(out)@) + total.entries);
                assert(dirs_view(stack@) == dirs_view(old(stack)@) + total.dirs);
            }
            return Err(BulkParseError::LengthOverrun);
        }
        let record_len = read_u32(buf, offset) as usize;
        if record_len < 36 || record_len % 4 != 0 {
            proof {
                assert(then_run(done, rest).entries =~= done.entries);
                assert(then_run(done, rest).dirs =~= done.dirs);
            }
            return Err(BulkParseError::MalformedLength);
        }
        if record_len > len - offset {
            proof {
                assert(then_run(done, rest).entries =~= done.entries);
                assert(then_run(done, rest).dirs =~= done.dirs);
            }
            return Err(BulkParseError::RecordOverrun);
        }
        let record = &buf[offset..offset + record_len];
        let ghost one = record_run(record@, dir@, prefix@);
        let ghost out_before = out@;
        let ghost stack_before = stack@;
        let step = parse_record(record, dir, prefix, out, stack);
        match step {
            Err(e) => {
                proof {
                    assert(rest == one);
                    assert(entries_view(out@) =~= entries_view(old(out)@) + total.entries);
                    assert(dirs_view(stack@) =~= dirs_view(old(stack)@) + total.dirs);
                }
                return Err(e);
            },
            Ok(()) => {},
        }
        proof {
            let next = bulk_run(buf@, (n - i - 1) as nat, offset + record_len, dir@, prefix@);
            assert(rest == then_run(one, next));
            lemma_then_assoc(done, one, next);
            assert(entries_view(out@) =~= entries_view(old(out)@) + then_run(done, one).entries);
            assert(dirs_view(stack@) =~= dirs_view(old(stack)@) + then_run(done, one).dirs);
            done = then_run(done, one);
        }
        offset = offset + record_len;
        i = i + 1;
    }
    proof {
        assert(then_run(done, bulk_run(buf@, 0, offset as int, dir@, prefix@)).entries =~= done.entries);
        assert(then_run(done, bulk_run(buf@, 0, offset as int, dir@, prefix@)).dirs =~= done.dirs);
    }
    Ok(())
}

/// The scratch buffer's next capacity after one entry did not fit:
/// doubled, up to the ceiling; at the ceiling there is none, and the
/// walk gives up on the bulk path.
pub fn next_scratch_capacity(len: usize) -> (r: Option<usize>)
    ensures
        len < MAX_BUFFER_CAPACITY ==> r == Some(
            if 2 * len < MAX_BUFFER_CAPACITY { (2 * len) as usize } else { MAX_BUFFER_CAPACITY },
        ),
        len >= MAX_BUFFER_CAPACITY ==> r is None,
{
    if len < MAX_BUFFER_CAPACITY {
        let doubled = len * 2;
        if doubled < MAX_BUFFER_CAPACITY {
            Some(doubled)
        } else {
            Some(MAX_BUFFER_CAPACITY)
        }
    } else {
        None
    }
}

} // verus!
